//! When what a request led to before is used again, in terms of its files.

use vstd::prelude::*;
use crate::context::{artifact_bytes, fact_hash, key_path, labels, FileFact};
use crate::fscache::{changed_after, noted, ticked, watched, CacheView};
use crate::graph::checks::hashed;
use crate::graph::hits::{lemma_hashed_when, no_collision};
use crate::graph::laws::lemma_hashed_shape;
use crate::graph::GraphView;
use crate::key_laws::{lemma_artifact_bytes_determine, moved, no_nul, no_nul_pairs};
use crate::order::{lemma_sorted_of, sorted_of};
use crate::path::{below, clean, joined_path, lemma_path_order, path_le, path_order, PathStyle};
use crate::request_cache::{
    captured_all, check_entry, entry_for, inputs_under, lemma_request_inputs, lemma_without_repeats, makes_artifact, matches_root,
    request_files, request_inputs, resolved_path, still_valid, unchanged_since, validation_text, without_repeats, CapturedView, CheckView, EntryView,
    RequestValidationEntry,
};
use vstd::relations::sorted_by;

verus! {

// ── The journal ─────────────────────────────────────────────────────────

/// A change is noted for every file that changed, at the clock, and for no other.
pub proof fn lemma_noted(journal: Map<Seq<char>, u64>, paths: Seq<Seq<char>>, clock: u64, path: Seq<char>)
    ensures
        paths.contains(path) ==> noted(journal, paths, clock).contains_key(path) && noted(journal, paths, clock)[path] == clock,
        !paths.contains(path) ==> noted(journal, paths, clock).contains_key(path) == journal.contains_key(path),
        !paths.contains(path) && journal.contains_key(path) ==> noted(journal, paths, clock)[path] == journal[path],
    decreases paths.len(),
{
    if paths.len() > 0 {
        let init = paths.drop_last();
        lemma_noted(journal, init, clock, path);
        assert(paths.contains(path) <==> init.contains(path) || path == paths.last()) by {
            assert(paths[paths.len() - 1] == paths.last());
            if init.contains(path) {
                assert(paths[init.index_of(path)] == path);
            }
            if paths.contains(path) && path != paths.last() {
                assert(init[paths.index_of(path)] == path);
            }
        }
    }
}

/// Putting files under watch keeps what is noted of files that are there, and notes the others at
/// the clock.
pub proof fn lemma_watched(journal: Map<Seq<char>, u64>, paths: Seq<Seq<char>>, clock: u64, path: Seq<char>)
    ensures
        journal.contains_key(path) ==> watched(journal, paths, clock).contains_key(path) && watched(journal, paths, clock)[path]
            == journal[path],
        !journal.contains_key(path) ==> watched(journal, paths, clock).contains_key(path) == paths.contains(path),
        !journal.contains_key(path) && paths.contains(path) ==> watched(journal, paths, clock)[path] == clock,
    decreases paths.len(),
{
    if paths.len() > 0 {
        let init = paths.drop_last();
        lemma_watched(journal, init, clock, path);
        lemma_watched(journal, init, clock, paths.last());
        assert(paths.contains(path) <==> init.contains(path) || path == paths.last()) by {
            assert(paths[paths.len() - 1] == paths.last());
            if init.contains(path) {
                assert(paths[init.index_of(path)] == path);
            }
            if paths.contains(path) && path != paths.last() {
                assert(init[paths.index_of(path)] == path);
            }
        }
    }
}

// ── Validations ─────────────────────────────────────────────────────────

/// An entry is taken to hold without a look at its files exactly where it holds in every worktree,
/// and a validation of this request under this root is there that is of the expected artifact, not
/// too old, and later than every change noted of the entry's files, each of which is under watch.
/// Where the entry holds in every worktree but there is no such validation, all its files are to be
/// read, and are put under watch as of now.
pub proof fn lemma_check_entry(
    style: PathStyle,
    c: CacheView,
    validations: Map<Seq<char>, RequestValidationEntry>,
    entry: EntryView,
    fp: Seq<char>,
    root: Seq<char>,
    expected: Seq<char>,
    now: u128,
    max_age: u128,
)
    requires
        entry.shareable,
        forall|i: int| 0 <= i < entry.inputs.len() ==> (#[trigger] entry.inputs[i]) is RootRelative,
    ensures
        ({
            let (after, check) = check_entry(style, c, validations, entry, fp, Some(root), expected, now, max_age);
            let paths = Seq::new(
                entry.inputs.len(),
                |i: int| clean(style, joined_path(style, root, entry.inputs[i]->RootRelative_0)),
            );
            let k = fp + seq!['\n'] + root;
            let valid = {
                &&& validations.contains_key(k)
                &&& validations[k].artifact_key_hex@ == expected
                &&& now <= validations[k].cached_at + max_age
                &&& forall|i: int|
                    0 <= i < paths.len() ==> c.journal.contains_key(#[trigger] paths[i]) && c.journal[paths[i]]
                        <= validations[k].clock
            };
            &&& valid ==> check == CheckView::Valid && after == c
            &&& !valid ==> {
                &&& check == CheckView::Hash(paths, c.clock)
                &&& after.clock == c.clock
                &&& after.metadata == c.metadata
                &&& forall|i: int|
                    0 <= i < paths.len() ==> after.journal.contains_key(#[trigger] paths[i]) && after.journal[paths[i]] == (
                    if c.journal.contains_key(paths[i]) {
                        c.journal[paths[i]]
                    } else {
                        c.clock
                    })
                &&& forall|p: Seq<char>|
                    #[trigger] c.journal.contains_key(p) ==> after.journal.contains_key(p) && after.journal[p] == c.journal[p]
            }
        }),
{
    reveal_strlit("\n");
    let (after, check) = check_entry(style, c, validations, entry, fp, Some(root), expected, now, max_age);
    let paths = Seq::new(entry.inputs.len(), |i: int| clean(style, joined_path(style, root, entry.inputs[i]->RootRelative_0)));
    assert(inputs_under(style, entry.inputs, root) =~= paths);
    assert("\n"@ =~= seq!['\n']);
    let k = fp + seq!['\n'] + root;
    assert(validation_text(fp, root) == k);
    if validations.contains_key(k) {
        let v = validations[k];
        assert(unchanged_since(c, paths, v.clock) <==> forall|i: int|
            0 <= i < paths.len() ==> c.journal.contains_key(#[trigger] paths[i]) && c.journal[paths[i]] <= v.clock) by {
            if unchanged_since(c, paths, v.clock) {
                assert forall|i: int| 0 <= i < paths.len() implies c.journal.contains_key(#[trigger] paths[i])
                    && c.journal[paths[i]] <= v.clock by {
                    assert(!changed_after(c.journal, paths[i], v.clock));
                }
            }
        }
    }
    if check is Hash {
        assert forall|i: int| 0 <= i < paths.len() implies after.journal.contains_key(#[trigger] paths[i]) && after.journal[paths[i]]
            == (if c.journal.contains_key(paths[i]) {
            c.journal[paths[i]]
        } else {
            c.clock
        }) by {
            lemma_watched(c.journal, paths, c.clock, paths[i]);
            assert(paths.contains(paths[i]));
        }
        assert forall|p: Seq<char>| #[trigger] c.journal.contains_key(p) implies after.journal.contains_key(p) && after.journal[p]
            == c.journal[p] by {
            lemma_watched(c.journal, paths, c.clock, p);
        }
    }
}

/// An entry does not hold where there is no root, where it is tied to its worktree, or where one of
/// its files does not move; and nothing is put under watch for it.
pub proof fn lemma_check_mismatch(
    style: PathStyle,
    c: CacheView,
    validations: Map<Seq<char>, RequestValidationEntry>,
    entry: EntryView,
    fp: Seq<char>,
    root: Option<Seq<char>>,
    expected: Seq<char>,
    now: u128,
    max_age: u128,
    i: int,
)
    requires
        root is None || !entry.shareable || (0 <= i < entry.inputs.len() && entry.inputs[i] is Absolute),
    ensures
        check_entry(style, c, validations, entry, fp, root, expected, now, max_age) == (c, CheckView::Mismatch),
{
}

/// A change of one of its files ends a validation, however the file was found unchanged before.
pub proof fn lemma_change_ends_validation(
    v: RequestValidationEntry,
    c: CacheView,
    paths: Seq<Seq<char>>,
    gone: Seq<Seq<char>>,
    i: int,
    expected: Seq<char>,
    now: u128,
    max_age: u128,
)
    requires
        c.clock < u64::MAX,
        v.clock <= c.clock,
        0 <= i < paths.len(),
        gone.contains(paths[i]),
    ensures
        !still_valid(
            v,
            CacheView { journal: noted(c.journal, gone, ticked(c.clock)), clock: ticked(c.clock), ..c },
            paths,
            expected,
            now,
            max_age,
        ),
{
    lemma_noted(c.journal, gone, ticked(c.clock), paths[i]);
    assert(changed_after(noted(c.journal, gone, ticked(c.clock)), paths[i], v.clock));
}

/// A change of other files leaves a validation as it was.
pub proof fn lemma_other_change_keeps_validation(
    v: RequestValidationEntry,
    c: CacheView,
    paths: Seq<Seq<char>>,
    gone: Seq<Seq<char>>,
    expected: Seq<char>,
    now: u128,
    max_age: u128,
)
    requires
        still_valid(v, c, paths, expected, now, max_age),
        forall|i: int| 0 <= i < paths.len() ==> !gone.contains(#[trigger] paths[i]),
    ensures
        still_valid(
            v,
            CacheView { journal: noted(c.journal, gone, ticked(c.clock)), clock: ticked(c.clock), ..c },
            paths,
            expected,
            now,
            max_age,
        ),
{
    let journal = noted(c.journal, gone, ticked(c.clock));
    assert forall|i: int| 0 <= i < paths.len() implies !changed_after(journal, #[trigger] paths[i], v.clock) by {
        assert(!changed_after(c.journal, paths[i], v.clock));
        lemma_noted(c.journal, gone, ticked(c.clock), paths[i]);
    }
}

// ── Artifacts ───────────────────────────────────────────────────────────

/// Files make an artifact where each has a known hash, and the same contents under the same
/// spellings made it: so what was made under one root is made under another from the same files
/// there.
pub proof fn lemma_artifact_moves(
    style: PathStyle,
    context: Seq<char>,
    root_a: Seq<char>,
    root_b: Seq<char>,
    facts_a: Seq<FileFact>,
    facts_b: Seq<FileFact>,
    paths_a: Seq<Seq<char>>,
    paths_b: Seq<Seq<char>>,
    expected: Seq<char>,
)
    requires
        makes_artifact(style, context, root_a, facts_a, paths_a, expected),
        paths_a.len() == paths_b.len(),
        forall|i: int|
            0 <= i < paths_a.len() ==> moved(style, #[trigger] paths_a[i], paths_b[i], root_a, root_b) && fact_hash(
                facts_a,
                paths_a[i],
            ) == fact_hash(facts_b, paths_b[i]),
    ensures
        makes_artifact(style, context, root_b, facts_b, paths_b, expected),
{
    lemma_hashed_shape(facts_a, paths_a);
    lemma_hashed_when(facts_a, paths_a);
    assert forall|i: int| 0 <= i < paths_b.len() implies fact_hash(facts_b, #[trigger] paths_b[i]) is Some by {
        assert(fact_hash(facts_a, paths_a[i]) is Some);
    }
    lemma_hashed_when(facts_b, paths_b);
    lemma_hashed_shape(facts_b, paths_b);
    let a = labels(style, hashed(facts_a, paths_a)->0, Some(root_a));
    let b = labels(style, hashed(facts_b, paths_b)->0, Some(root_b));
    assert(a =~= b) by {
        assert forall|i: int| 0 <= i < a.len() implies a[i] == b[i] by {
            let x = hashed(facts_a, paths_a)->0;
            let y = hashed(facts_b, paths_b)->0;
            assert(x[i].0 == paths_a[i] && y[i].0 == paths_b[i]);
            assert(moved(style, paths_a[i], paths_b[i], root_a, root_b));
        }
    }
}

/// Files with the spellings of their paths under a root, and their hashes.
pub open spec fn spelled_hashes(style: PathStyle, root: Seq<char>, facts: Seq<FileFact>, paths: Seq<Seq<char>>) -> Seq<
    (Seq<char>, Seq<char>),
> {
    Seq::new(paths.len(), |i: int| (key_path(style, paths[i], Some(root)), fact_hash(facts, paths[i])->0))
}

/// Files that make an artifact have the contents, under the same spellings, of those that made it:
/// a file with another content, or one more or less, makes another artifact. And a file without a
/// known hash makes none. (Unless two different inputs have one hash.)
pub proof fn lemma_artifact_needs_contents(
    style: PathStyle,
    context: Seq<char>,
    root_a: Seq<char>,
    root_b: Seq<char>,
    facts_a: Seq<FileFact>,
    facts_b: Seq<FileFact>,
    paths_a: Seq<Seq<char>>,
    paths_b: Seq<Seq<char>>,
    expected: Seq<char>,
)
    requires
        makes_artifact(style, context, root_a, facts_a, paths_a, expected),
        makes_artifact(style, context, root_b, facts_b, paths_b, expected),
        no_nul(context),
        no_nul_pairs(spelled_hashes(style, root_a, facts_a, paths_a)),
        no_nul_pairs(spelled_hashes(style, root_b, facts_b, paths_b)),
        no_collision(
            artifact_bytes(context, spelled_hashes(style, root_a, facts_a, paths_a)),
            artifact_bytes(context, spelled_hashes(style, root_b, facts_b, paths_b)),
        ),
    ensures
        forall|i: int| 0 <= i < paths_a.len() ==> fact_hash(facts_a, #[trigger] paths_a[i]) is Some,
        forall|i: int| 0 <= i < paths_b.len() ==> fact_hash(facts_b, #[trigger] paths_b[i]) is Some,
        spelled_hashes(style, root_a, facts_a, paths_a).to_multiset() == spelled_hashes(style, root_b, facts_b, paths_b).to_multiset(),
{
    lemma_hashed_when(facts_a, paths_a);
    lemma_hashed_when(facts_b, paths_b);
    lemma_spelled_hashes(style, root_a, facts_a, paths_a);
    lemma_spelled_hashes(style, root_b, facts_b, paths_b);
    lemma_artifact_bytes_determine(
        context,
        context,
        spelled_hashes(style, root_a, facts_a, paths_a),
        spelled_hashes(style, root_b, facts_b, paths_b),
    );
}

/// What is hashed of files that are all known.
proof fn lemma_spelled_hashes(style: PathStyle, root: Seq<char>, facts: Seq<FileFact>, paths: Seq<Seq<char>>)
    requires
        hashed(facts, paths) is Some,
    ensures
        labels(style, hashed(facts, paths)->0, Some(root)) == spelled_hashes(style, root, facts, paths),
{
    lemma_hashed_shape(facts, paths);
    let list = hashed(facts, paths)->0;
    assert(labels(style, list, Some(root)) =~= spelled_hashes(style, root, facts, paths)) by {
        assert forall|i: int| 0 <= i < list.len() implies labels(style, list, Some(root))[i] == spelled_hashes(
            style,
            root,
            facts,
            paths,
        )[i] by {
            assert(list[i].0 == paths[i]);
        }
    }
}

/// Without a root a kept path is what was kept of it.
pub proof fn lemma_resolved_without_root(style: PathStyle, path: Seq<char>)
    ensures
        resolved_path(style, CapturedView::RootRelative(path), None) == clean(style, path),
        resolved_path(style, CapturedView::Absolute(path), None) == path,
{
}

// ── Entries ─────────────────────────────────────────────────────────────

/// The input files of a request are the source, the headers and the extern crates that the graph
/// knows of its context, and what is read before the source: all of them, and no others.
pub proof fn lemma_input_files(
    style: PathStyle,
    g: GraphView,
    key: Seq<char>,
    source: Seq<char>,
    forced: Seq<Seq<char>>,
    x: Seq<char>,
)
    ensures
        request_inputs(style, g, key, source, forced).contains(x) <==> {
            ||| x == source
            ||| g.contexts.contains_key(key) && g.contexts[key].resolved.contains(x)
            ||| g.externs.contains_key(key) && exists|i: int| 0 <= i < g.externs[key].len() && (#[trigger] g.externs[key][i]).1 == x
            ||| forced.contains(x)
        },
{
    lemma_request_inputs(style, g, key, source, forced);
    let list = request_inputs(style, g, key, source, forced);
    let files = request_files(g, key, source, forced);
    assert(list.to_set().contains(x) <==> files.to_set().contains(x));
    let none = Seq::<Seq<char>>::empty();
    let a = seq![source];
    let b = if g.contexts.contains_key(key) {
        g.contexts[key].resolved
    } else {
        none
    };
    let c = if g.externs.contains_key(key) {
        crate::graph::checks::extern_paths(g.externs[key])
    } else {
        none
    };
    assert(files == a + b + c + forced);
    lemma_in_either(a + b + c, forced, x);
    lemma_in_either(a + b, c, x);
    lemma_in_either(a, b, x);
    assert(a.contains(x) <==> x == source) by {
        assert(a[0] == source);
    }
    if g.externs.contains_key(key) {
        let externs = g.externs[key];
        if c.contains(x) {
            let i = c.index_of(x);
            assert(externs[i].1 == x);
        }
        if exists|i: int| 0 <= i < externs.len() && (#[trigger] externs[i]).1 == x {
            let i = choose|i: int| 0 <= i < externs.len() && (#[trigger] externs[i]).1 == x;
            assert(c[i] == x);
        }
    }
}

/// The input files of a request are in the order of paths.
pub proof fn lemma_inputs_in_order(
    style: PathStyle,
    g: GraphView,
    key: Seq<char>,
    source: Seq<char>,
    forced: Seq<Seq<char>>,
    i: int,
    j: int,
)
    requires
        0 <= i < j < request_inputs(style, g, key, source, forced).len(),
    ensures
        path_le(style, request_inputs(style, g, key, source, forced)[i], request_inputs(style, g, key, source, forced)[j]),
{
    let files = request_files(g, key, source, forced);
    lemma_path_order(style);
    lemma_sorted_of(files, path_order(style));
    lemma_repeats_order(style, sorted_of(files, path_order(style)));
    let list = request_inputs(style, g, key, source, forced);
    assert(path_order(style)(list[i], list[j]));
}

/// Leaving repeats out keeps the order.
proof fn lemma_repeats_order(style: PathStyle, s: Seq<Seq<char>>)
    requires
        sorted_by(s, path_order(style)),
    ensures
        sorted_by(without_repeats(s), path_order(style)),
    decreases s.len(),
{
    let leq = path_order(style);
    if s.len() > 0 {
        let init = s.drop_last();
        assert forall|i: int, j: int| 0 <= i < j < init.len() implies #[trigger] leq(init[i], init[j]) by {
            assert(leq(s[i], s[j]));
        }
        lemma_repeats_order(style, init);
        let before = without_repeats(init);
        let now = without_repeats(s);
        assert forall|i: int, j: int| 0 <= i < j < now.len() implies #[trigger] leq(now[i], now[j]) by {
            if j < before.len() {
                assert(leq(before[i], before[j]));
            } else {
                assert(before.contains(before[i]));
                lemma_without_repeats(init, before[i]);
                let k = init.index_of(before[i]);
                assert(leq(s[k], s[s.len() - 1]));
            }
        }
    }
}

/// What is in one list after another is in either.
proof fn lemma_in_either(a: Seq<Seq<char>>, b: Seq<Seq<char>>, x: Seq<char>)
    ensures
        (a + b).contains(x) <==> a.contains(x) || b.contains(x),
{
    let all = a + b;
    if a.contains(x) {
        assert(all[a.index_of(x)] == x);
    }
    if b.contains(x) {
        assert(all[a.len() + b.index_of(x)] == x);
    }
    if all.contains(x) && !a.contains(x) {
        let i = all.index_of(x);
        if i < a.len() {
            assert(a[i] == x);
        }
        assert(b[i - a.len()] == x);
    }
}

/// An entry keeps what it is of, and holds in every worktree exactly where nothing ties what was
/// made to this one and the source, the output, the dependency file and every input lie below the
/// root.
pub proof fn lemma_entry_for(
    style: PathStyle,
    context: Seq<char>,
    source: Seq<char>,
    output: Seq<char>,
    depfile: Option<Seq<char>>,
    inputs: Seq<Seq<char>>,
    root: Option<Seq<char>>,
    bound: bool,
    now: u128,
)
    ensures
        ({
            let entry = entry_for(style, context, source, output, depfile, inputs, root, bound, now);
            &&& entry.context == context
            &&& entry.root == root
            &&& entry.cached_at == now
            &&& entry.inputs.len() == inputs.len()
            &&& entry.shareable <==> {
                &&& !bound
                &&& root is Some
                &&& below(style, source, root->0) is Some
                &&& below(style, output, root->0) is Some
                &&& depfile is Some ==> below(style, depfile->0, root->0) is Some
                &&& forall|i: int| 0 <= i < inputs.len() ==> below(style, #[trigger] inputs[i], root->0) is Some
            }
            &&& matches_root(entry, root)
        }),
{
    let entry = entry_for(style, context, source, output, depfile, inputs, root, bound, now);
    let all = captured_all(style, inputs, root);
    if entry.shareable {
        assert forall|i: int| 0 <= i < inputs.len() implies below(style, #[trigger] inputs[i], root->0) is Some by {
            assert(all[i] is RootRelative);
        }
    }
    if root is Some && (forall|i: int| 0 <= i < inputs.len() ==> below(style, #[trigger] inputs[i], root->0) is Some) {
        assert forall|i: int| 0 <= i < all.len() implies (#[trigger] all[i]) is RootRelative by {
            assert(below(style, inputs[i], root->0) is Some);
        }
    }
}

/// An entry is used under its own root, and under another exactly where it holds in every worktree
/// and both are there.
pub proof fn lemma_matches_root(entry: EntryView, root: Option<Seq<char>>)
    ensures
        matches_root(entry, root) <==> entry.root == root || (entry.shareable && entry.root is Some && root is Some),
{
}

} // verus!
