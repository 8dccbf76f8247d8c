//! What a compilation depends on, and the keys computed from it.

use vstd::prelude::*;
use crate::hash::{field, hash_bytes, put_field, ArtifactKey, ContentHash, ContextKey};
use crate::order::{lemma_pair_order, lemma_sorted_forgets_order, pair_order, sort_pairs, sorted_of};
use crate::path::{below, contains_path, key_form, normalize_for_key, path_views, strip_root, NormalizedPath, PathStyle};
use crate::text::{pair_views, same_text, views};

verus! {

// ── The context ─────────────────────────────────────────────────────────

/// Where headers are looked for.
#[derive(Clone, Debug)]
pub struct IncludeSearchPaths {
    /// Directories given with `-I`.
    pub user: Vec<NormalizedPath>,
    /// Directories given with `-isystem`, and the compiler's own.
    pub system: Vec<NormalizedPath>,
}

impl Default for IncludeSearchPaths {
    fn default() -> (paths: IncludeSearchPaths)
        ensures
            path_views(paths.user@) == Seq::<Seq<char>>::empty(),
            path_views(paths.system@) == Seq::<Seq<char>>::empty(),
    {
        let paths = IncludeSearchPaths { user: Vec::new(), system: Vec::new() };
        assert(path_views(paths.user@) =~= Seq::<Seq<char>>::empty());
        assert(path_views(paths.system@) =~= Seq::<Seq<char>>::empty());
        paths
    }
}

/// Everything about a compiler request that decides what it produces, but the file contents.
#[derive(Clone, Debug)]
pub struct CompileContext {
    /// The file to compile.
    pub source_file: NormalizedPath,
    /// Where headers are looked for.
    pub include_search: IncludeSearchPaths,
    /// Macro definitions.
    pub defines: Vec<String>,
    /// Flags that change the output.
    pub flags: Vec<String>,
    /// Headers that are read before the source.
    pub force_includes: Vec<NormalizedPath>,
    /// Flags of unknown meaning.
    pub unknown_flags: Vec<String>,
}

/// A context, by its texts.
pub struct ContextView {
    /// The file to compile.
    pub source: Seq<char>,
    /// User search directories.
    pub user: Seq<Seq<char>>,
    /// System search directories.
    pub system: Seq<Seq<char>>,
    /// Macro definitions.
    pub defines: Seq<Seq<char>>,
    /// Flags that change the output.
    pub flags: Seq<Seq<char>>,
    /// Headers that are read before the source.
    pub forced: Seq<Seq<char>>,
    /// Flags of unknown meaning.
    pub unknown: Seq<Seq<char>>,
}

impl View for CompileContext {
    type V = ContextView;

    open spec fn view(&self) -> ContextView {
        ContextView {
            source: self.source_file@,
            user: path_views(self.include_search.user@),
            system: path_views(self.include_search.system@),
            defines: views(self.defines@),
            flags: views(self.flags@),
            forced: path_views(self.force_includes@),
            unknown: views(self.unknown_flags@),
        }
    }
}

/// The dependency-file flags that the user gave.
#[derive(Clone, Debug)]
pub struct UserDepFlags {
    /// The flags, as given.
    pub flags: Vec<String>,
}

/// What an argument parser read from a C or C++ command line.
#[derive(Clone, Debug)]
pub struct ParsedArgs {
    /// The first source file on the command line.
    pub source_file: NormalizedPath,
    /// Where headers are looked for.
    pub include_search: IncludeSearchPaths,
    /// Macro definitions.
    pub defines: Vec<String>,
    /// Flags that change the output.
    pub flags: Vec<String>,
    /// Headers that are read before the source.
    pub force_includes: Vec<NormalizedPath>,
    /// Flags of unknown meaning.
    pub unknown_flags: Vec<String>,
    /// The dependency-file flags.
    pub dep_flags: UserDepFlags,
}

/// The context that parsed arguments describe.
pub open spec fn parsed_context(parsed: ParsedArgs) -> ContextView {
    ContextView {
        source: parsed.source_file@,
        user: path_views(parsed.include_search.user@),
        system: path_views(parsed.include_search.system@),
        defines: views(parsed.defines@),
        flags: views(parsed.flags@),
        forced: path_views(parsed.force_includes@),
        unknown: views(parsed.unknown_flags@),
    }
}

/// `list` followed by those of `extra`, in order, that are not there yet.
pub open spec fn merged(list: Seq<Seq<char>>, extra: Seq<Seq<char>>) -> Seq<Seq<char>>
    decreases extra.len(),
{
    if extra.len() == 0 {
        list
    } else {
        let before = merged(list, extra.drop_last());
        if before.contains(extra.last()) {
            before
        } else {
            before.push(extra.last())
        }
    }
}

/// Merging adds no path twice, drops none, and only adds at the end.
pub proof fn lemma_merged(list: Seq<Seq<char>>, extra: Seq<Seq<char>>)
    ensures
        list.is_prefix_of(merged(list, extra)),
        forall|x: Seq<char>| merged(list, extra).contains(x) <==> list.contains(x) || extra.contains(x),
        list.no_duplicates() ==> merged(list, extra).no_duplicates(),
    decreases extra.len(),
{
    if extra.len() > 0 {
        lemma_merged(list, extra.drop_last());
        let before = merged(list, extra.drop_last());
        let now = merged(list, extra);
        assert forall|x: Seq<char>| now.contains(x) <==> list.contains(x) || extra.contains(x) by {
            assert(extra.contains(x) <==> extra.drop_last().contains(x) || x == extra.last()) by {
                if extra.contains(x) && x != extra.last() {
                    let i = extra.index_of(x);
                    assert(extra.drop_last()[i] == x);
                }
                if extra.drop_last().contains(x) {
                    let i = extra.drop_last().index_of(x);
                    assert(extra[i] == x);
                }
                assert(extra[extra.len() - 1] == extra.last());
            }
            if !before.contains(extra.last()) {
                assert(now.contains(x) <==> before.contains(x) || x == extra.last()) by {
                    if before.contains(x) {
                        let i = before.index_of(x);
                        assert(now[i] == x);
                    }
                    assert(now[now.len() - 1] == extra.last());
                    if now.contains(x) && x != extra.last() {
                        let i = now.index_of(x);
                        assert(before[i] == x);
                    }
                }
            }
        }
        assert(list =~= now.take(list.len() as int));
    } else {
        assert(list =~= list.take(list.len() as int));
    }
}

/// Appends to `list` the paths of `extra` that are not there yet.
pub fn merge_paths(list: &mut Vec<NormalizedPath>, extra: &[NormalizedPath])
    ensures
        path_views(final(list)@) == merged(path_views(old(list)@), path_views(extra@)),
{
    let ghost start = path_views(list@);
    let ghost more = path_views(extra@);
    let mut i: usize = 0;
    assert(more.take(0) =~= Seq::<Seq<char>>::empty());
    while i < extra.len()
        invariant
            i <= extra@.len(),
            more == path_views(extra@),
            path_views(list@) == merged(start, more.take(i as int)),
        decreases extra@.len() - i,
    {
        let ghost list0 = list@;
        assert(more.take(i + 1).drop_last() =~= more.take(i as int));
        assert(more.take(i + 1).last() == extra@[i as int]@);
        if !contains_path(list, &extra[i]) {
            list.push(extra[i].clone());
            assert(path_views(list@) =~= path_views(list0).push(extra@[i as int]@));
        }
        i = i + 1;
    }
    assert(more.take(more.len() as int) =~= more);
}

impl CompileContext {
    /// The context that parsed arguments describe.
    pub fn from_parsed_args(parsed: ParsedArgs) -> (context: CompileContext)
        ensures
            context@ == parsed_context(parsed),
    {
        CompileContext {
            source_file: parsed.source_file,
            include_search: parsed.include_search,
            defines: parsed.defines,
            flags: parsed.flags,
            force_includes: parsed.force_includes,
            unknown_flags: parsed.unknown_flags,
        }
    }
}

// ── Paths in keys ───────────────────────────────────────────────────────

/// How a path is spelled in a context key: relative to the key root where it lies below it.
pub open spec fn key_path(style: PathStyle, path: Seq<char>, root: Option<Seq<char>>) -> Seq<char> {
    match root {
        Some(r) => match below(style, path, r) {
            Some(rest) => key_form(style, rest),
            None => key_form(style, path),
        },
        None => key_form(style, path),
    }
}

/// The spelling of a path in a context key.
pub fn normalize_key_path(style: PathStyle, path: &str, root: Option<&str>) -> (key: String)
    ensures
        key@ == key_path(style, path@, match root {
            Some(r) => Some(r@),
            None => None,
        }),
{
    match root {
        Some(r) => match strip_root(style, path, r) {
            Some(rest) => normalize_for_key(style, rest.as_str()),
            None => normalize_for_key(style, path),
        },
        None => normalize_for_key(style, path),
    }
}

// ── The context key ─────────────────────────────────────────────────────

/// One item of a list, as it is hashed.
pub open spec fn item_bytes(text: Seq<char>) -> Seq<u8> {
    seq![1u8] + field(text)
}

/// A list of texts, as it is hashed: each item marked, and an end mark.
pub open spec fn list_bytes(list: Seq<Seq<char>>) -> Seq<u8> {
    items_bytes(list) + seq![2u8]
}

/// The items of a list, as they are hashed.
pub open spec fn items_bytes(list: Seq<Seq<char>>) -> Seq<u8>
    decreases list.len(),
{
    if list.len() == 0 {
        Seq::empty()
    } else {
        items_bytes(list.drop_last()) + item_bytes(list.last())
    }
}

/// The paths of `list` as they are spelled in keys.
pub open spec fn key_paths(style: PathStyle, list: Seq<Seq<char>>, root: Option<Seq<char>>) -> Seq<Seq<char>> {
    Seq::new(list.len(), |i: int| key_path(style, list[i], root))
}

/// The bytes that a context key is the hash of.
pub open spec fn context_bytes(
    style: PathStyle,
    ctx: ContextView,
    root: Option<Seq<char>>,
    salt: Option<Seq<char>>,
) -> Seq<u8> {
    field("zccache-context"@) + field(key_path(style, ctx.source, root)) + list_bytes(key_paths(style, ctx.user, root))
        + list_bytes(key_paths(style, ctx.system, root)) + list_bytes(ctx.defines) + list_bytes(ctx.flags) + list_bytes(
        key_paths(style, ctx.forced, root),
    ) + list_bytes(ctx.unknown) + list_bytes(match salt {
        Some(s) => seq![s],
        None => Seq::<Seq<char>>::empty(),
    })
}

/// Appends a list of texts.
pub fn put_list(out: &mut Vec<u8>, list: &[String])
    ensures
        final(out)@ == old(out)@ + list_bytes(views(list@)),
{
    let ghost start = out@;
    let ghost all = views(list@);
    let mut i: usize = 0;
    assert(out@ =~= start + items_bytes(all.take(0)));
    while i < list.len()
        invariant
            i <= list@.len(),
            all == views(list@),
            out@ == start + items_bytes(all.take(i as int)),
        decreases list@.len() - i,
    {
        assert(all.take(i + 1).drop_last() =~= all.take(i as int));
        assert(all.take(i + 1).last() == list@[i as int]@);
        out.push(1);
        put_field(out, list[i].as_str());
        assert(out@ =~= start + items_bytes(all.take(i + 1)));
        i = i + 1;
    }
    out.push(2);
    assert(all.take(all.len() as int) =~= all);
    assert(out@ =~= start + list_bytes(all));
}

/// Appends a list of paths as they are spelled in keys.
fn put_paths(out: &mut Vec<u8>, style: PathStyle, list: &[NormalizedPath], root: Option<&str>)
    ensures
        final(out)@ == old(out)@ + list_bytes(key_paths(style, path_views(list@), match root {
            Some(r) => Some(r@),
            None => None,
        })),
{
    let ghost view = match root {
        Some(r) => Some(r@),
        None => None,
    };
    let mut keys: Vec<String> = Vec::new();
    let mut i: usize = 0;
    while i < list.len()
        invariant
            i <= list@.len(),
            keys@.len() == i,
            view == (match root {
                Some(r) => Some(r@),
                None => None,
            }),
            forall|j: int| 0 <= j < i ==> (#[trigger] keys@[j])@ == key_path(style, list@[j]@, view),
        decreases list@.len() - i,
    {
        keys.push(normalize_key_path(style, list[i].as_str(), root));
        i = i + 1;
    }
    assert(views(keys@) =~= key_paths(style, path_views(list@), view));
    put_list(out, &keys);
}

/// The key of a context: the hash of everything in it, paths below `root` relative to `root`.
pub fn compute_context_key(style: PathStyle, ctx: &CompileContext, root: Option<&str>, salt: Option<&str>) -> (key:
    ContextKey)
    ensures
        key@ == crate::hash::blake3_hex(
            context_bytes(style, ctx@, match root {
                Some(r) => Some(r@),
                None => None,
            }, match salt {
                Some(s) => Some(s@),
                None => None,
            }),
        ),
{
    let mut out: Vec<u8> = Vec::new();
    put_field(&mut out, "zccache-context");
    let source = normalize_key_path(style, ctx.source_file.as_str(), root);
    put_field(&mut out, source.as_str());
    assert(out@ =~= field("zccache-context"@) + field(source@));
    put_paths(&mut out, style, &ctx.include_search.user, root);
    put_paths(&mut out, style, &ctx.include_search.system, root);
    put_list(&mut out, &ctx.defines);
    put_list(&mut out, &ctx.flags);
    put_paths(&mut out, style, &ctx.force_includes, root);
    put_list(&mut out, &ctx.unknown_flags);
    let mut salts: Vec<String> = Vec::new();
    match salt {
        Some(s) => {
            salts.push(s.to_owned());
            assert(views(salts@) =~= seq![s@]);
        },
        None => {
            assert(views(salts@) =~= Seq::<Seq<char>>::empty());
        },
    }
    put_list(&mut out, &salts);
    ContextKey::new(hash_bytes(&out))
}

// ── The artifact key ────────────────────────────────────────────────────

/// Labelled hashes, as they are hashed.
pub open spec fn pairs_bytes(list: Seq<(Seq<char>, Seq<char>)>) -> Seq<u8>
    decreases list.len(),
{
    if list.len() == 0 {
        Seq::empty()
    } else {
        pairs_bytes(list.drop_last()) + field(list.last().0) + field(list.last().1)
    }
}

/// The bytes that an artifact key is the hash of.
pub open spec fn artifact_bytes(context: Seq<char>, labelled: Seq<(Seq<char>, Seq<char>)>) -> Seq<u8> {
    field("zccache-artifact"@) + field(context) + pairs_bytes(sorted_of(labelled, pair_order()))
}

/// The order in which the files are listed does not show in the artifact key.
pub proof fn lemma_artifact_bytes_forget_order(
    context: Seq<char>,
    a: Seq<(Seq<char>, Seq<char>)>,
    b: Seq<(Seq<char>, Seq<char>)>,
)
    requires
        a.to_multiset() == b.to_multiset(),
    ensures
        artifact_bytes(context, a) == artifact_bytes(context, b),
{
    lemma_pair_order();
    lemma_sorted_forgets_order(a, b, pair_order());
}

/// The key of what the context produces from files with these labels and hashes.
pub fn labelled_artifact_key(context: &ContextKey, labelled: Vec<(String, String)>) -> (key: ArtifactKey)
    ensures
        key@ == crate::hash::blake3_hex(artifact_bytes(context@, pair_views(labelled@))),
{
    let sorted = sort_pairs(labelled);
    let ghost all = pair_views(sorted@);
    let mut out: Vec<u8> = Vec::new();
    put_field(&mut out, "zccache-artifact");
    put_field(&mut out, context.hash().to_hex());
    let ghost head = field("zccache-artifact"@) + field(context@);
    let mut i: usize = 0;
    assert(out@ =~= head + pairs_bytes(all.take(0)));
    while i < sorted.len()
        invariant
            i <= sorted@.len(),
            all == pair_views(sorted@),
            out@ == head + pairs_bytes(all.take(i as int)),
        decreases sorted@.len() - i,
    {
        assert(all.take(i + 1).drop_last() =~= all.take(i as int));
        assert(all.take(i + 1).last() == (sorted@[i as int].0@, sorted@[i as int].1@));
        put_field(&mut out, sorted[i].0.as_str());
        put_field(&mut out, sorted[i].1.as_str());
        assert(out@ =~= head + pairs_bytes(all.take(i + 1)));
        i = i + 1;
    }
    assert(all.take(all.len() as int) =~= all);
    ArtifactKey::new(hash_bytes(&out))
}

/// Files and their hashes.
pub open spec fn file_views(files: Seq<(NormalizedPath, ContentHash)>) -> Seq<(Seq<char>, Seq<char>)> {
    Seq::new(files.len(), |i: int| (files[i].0@, files[i].1@))
}

/// Files labelled with the spelling of their paths in keys.
pub open spec fn labels(style: PathStyle, files: Seq<(Seq<char>, Seq<char>)>, root: Option<Seq<char>>) -> Seq<
    (Seq<char>, Seq<char>),
> {
    Seq::new(files.len(), |i: int| (key_path(style, files[i].0, root), files[i].1))
}

/// The key of what the context produces from these files.
pub fn compute_artifact_key(
    style: PathStyle,
    context: &ContextKey,
    files: &[(NormalizedPath, ContentHash)],
    root: Option<&str>,
) -> (key: ArtifactKey)
    ensures
        key@ == crate::hash::blake3_hex(
            artifact_bytes(context@, labels(style, file_views(files@), match root {
                Some(r) => Some(r@),
                None => None,
            })),
        ),
{
    let labelled = label_files(style, files, root);
    labelled_artifact_key(context, labelled)
}

/// Labels files with the spelling of their paths in keys.
pub fn label_files(style: PathStyle, files: &[(NormalizedPath, ContentHash)], root: Option<&str>) -> (labelled: Vec<
    (String, String),
>)
    ensures
        pair_views(labelled@) == labels(style, file_views(files@), match root {
            Some(r) => Some(r@),
            None => None,
        }),
{
    let ghost view = match root {
        Some(r) => Some(r@),
        None => None,
    };
    let mut labelled: Vec<(String, String)> = Vec::new();
    let mut i: usize = 0;
    while i < files.len()
        invariant
            i <= files@.len(),
            labelled@.len() == i,
            view == (match root {
                Some(r) => Some(r@),
                None => None,
            }),
            forall|j: int|
                0 <= j < i ==> (#[trigger] labelled@[j]).0@ == key_path(style, files@[j].0@, view) && labelled@[j].1@
                    == files@[j].1@,
        decreases files@.len() - i,
    {
        labelled.push((normalize_key_path(style, files[i].0.as_str(), root), files[i].1.to_hex().to_owned()));
        i = i + 1;
    }
    assert(pair_views(labelled@) =~= labels(style, file_views(files@), view));
    labelled
}

// ── What is known of files ──────────────────────────────────────────────

/// What is known of a file: whether its watcher saw no change, and its content hash where it
/// could be read.
#[derive(Clone, Debug)]
pub struct FileFact {
    /// The file.
    pub path: NormalizedPath,
    /// Nothing was seen to change since the file was last hashed.
    pub fresh: bool,
    /// The hash of its content now.
    pub hash: Option<ContentHash>,
}

/// The position of the fact about `path`, or the number of facts.
pub open spec fn fact_at(facts: Seq<FileFact>, path: Seq<char>) -> int
    decreases facts.len(),
{
    if facts.len() == 0 || facts[0].path@ == path {
        0
    } else {
        1 + fact_at(facts.drop_first(), path)
    }
}

/// The content hash of `path`, where one is known.
pub open spec fn fact_hash(facts: Seq<FileFact>, path: Seq<char>) -> Option<Seq<char>> {
    if fact_at(facts, path) < facts.len() {
        crate::hash::opt_hash_view(facts[fact_at(facts, path)].hash)
    } else {
        None
    }
}

/// Whether `path` is known not to have changed.
pub open spec fn fact_fresh(facts: Seq<FileFact>, path: Seq<char>) -> bool {
    fact_at(facts, path) < facts.len() && facts[fact_at(facts, path)].fresh
}

/// The position of the fact about `path`.
fn find_fact(facts: &[FileFact], path: &str) -> (at: usize)
    ensures
        at == fact_at(facts@, path@),
        at <= facts@.len(),
{
    let mut i: usize = 0;
    assert(facts@.skip(0) =~= facts@);
    while i < facts.len() && !same_text(facts[i].path.as_str(), path)
        invariant
            i <= facts@.len(),
            fact_at(facts@, path@) == i + fact_at(facts@.skip(i as int), path@),
        decreases facts@.len() - i,
    {
        assert(facts@.skip(i as int).drop_first() =~= facts@.skip(i + 1));
        i = i + 1;
    }
    i
}

/// The content hash of `path`, where one is known.
pub fn known_hash(facts: &[FileFact], path: &str) -> (hash: Option<ContentHash>)
    ensures
        crate::hash::opt_hash_view(hash) == fact_hash(facts@, path@),
{
    let at = find_fact(facts, path);
    if at < facts.len() {
        match &facts[at].hash {
            Some(h) => Some(h.clone()),
            None => None,
        }
    } else {
        None
    }
}

/// Whether `path` is known not to have changed.
pub fn known_fresh(facts: &[FileFact], path: &str) -> (fresh: bool)
    ensures
        fresh == fact_fresh(facts@, path@),
{
    let at = find_fact(facts, path);
    at < facts.len() && facts[at].fresh
}

} // verus!
