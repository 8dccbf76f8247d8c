//! When a recorded artifact is used again, said in terms of what was known of the files when it
//! was recorded and what is known of them now.

use vstd::prelude::*;
use super::checks::{
    changed, changed_among, checked, extern_paths, externs_agree, externs_for, fast_hit, hashed, hashed_externs, input_files, key_of, never_recorded, registered, registered_rustc,
    updated, verdict, VerdictView,
};
use super::ingest::ingested;
use super::laws::{lemma_hashed_shape, lemma_recorded};
use super::{ContextState, GraphView};
use crate::context::{artifact_bytes, context_bytes, fact_fresh, fact_hash, key_path, labels, ContextView, FileFact};
use crate::hash::{blake3_hex, opt_hash_view};
use crate::key_laws::{
    lemma_artifact_bytes_determine, lemma_contexts_are_told_apart, no_nul, no_nul_context, no_nul_option, no_nul_pairs,
    same_paths, tellable_context,
};
use crate::order::lemma_picked;
use crate::path::{parts, PathStyle};

verus! {

// ── What is known of a file ─────────────────────────────────────────────

/// What is known of a file is what the first fact about it says.
pub proof fn lemma_first_fact_counts(facts: Seq<FileFact>, at: int)
    requires
        0 <= at < facts.len(),
        forall|j: int| 0 <= j < at ==> (#[trigger] facts[j]).path@ != facts[at].path@,
    ensures
        fact_hash(facts, facts[at].path@) == opt_hash_view(facts[at].hash),
        fact_fresh(facts, facts[at].path@) == facts[at].fresh,
    decreases facts.len(),
{
    let path = facts[at].path@;
    if at > 0 {
        assert(facts[0].path@ != path);
        let rest = facts.drop_first();
        assert(rest[at - 1] == facts[at]);
        assert forall|j: int| 0 <= j < at - 1 implies (#[trigger] rest[j]).path@ != rest[at - 1].path@ by {
            assert(rest[j] == facts[j + 1]);
        }
        lemma_first_fact_counts(rest, at - 1);
        lemma_fact_at(facts, path);
        lemma_fact_at(rest, path);
    }
}

/// Where a fact is found.
proof fn lemma_fact_at(facts: Seq<FileFact>, path: Seq<char>)
    ensures
        0 <= crate::context::fact_at(facts, path) <= facts.len(),
    decreases facts.len(),
{
    if facts.len() > 0 && facts[0].path@ != path {
        lemma_fact_at(facts.drop_first(), path);
    }
}

/// Of a file that no fact is about, neither a hash is known nor that it is unchanged.
pub proof fn lemma_no_fact_tells_nothing(facts: Seq<FileFact>, path: Seq<char>)
    requires
        forall|j: int| 0 <= j < facts.len() ==> (#[trigger] facts[j]).path@ != path,
    ensures
        fact_hash(facts, path) is None,
        !fact_fresh(facts, path),
    decreases facts.len(),
{
    if facts.len() > 0 {
        assert(facts[0].path@ != path);
        let rest = facts.drop_first();
        assert forall|j: int| 0 <= j < rest.len() implies (#[trigger] rest[j]).path@ != path by {
            assert(rest[j] == facts[j + 1]);
        }
        lemma_no_fact_tells_nothing(rest, path);
        lemma_fact_at(rest, path);
    }
}

/// Whether a file is as it was: its watcher vouches for it, or its hash is known and is the one
/// known then.
pub open spec fn vouched(then: Seq<FileFact>, now: Seq<FileFact>, path: Seq<char>) -> bool {
    fact_fresh(now, path) || (fact_hash(now, path) is Some && fact_hash(now, path) == fact_hash(then, path))
}

// ── Registering ─────────────────────────────────────────────────────────

/// Registering a context changes the verdict on no context that was there, and a context that was
/// not there is cold.
pub proof fn lemma_registered(
    g: GraphView,
    key: Seq<char>,
    context: ContextView,
    root: Option<Seq<char>>,
    at: u128,
    other: Seq<char>,
    facts: Seq<FileFact>,
)
    ensures
        ({
            let after = registered(g, key, context, root, at);
            &&& g.contexts.contains_key(other) ==> verdict(after, other, facts) == verdict(g, other, facts)
            &&& !g.contexts.contains_key(other) ==> verdict(after, other, facts) == VerdictView::Cold
            &&& after.contexts.contains_key(key)
            &&& after.contexts[key].accessed == at
            &&& !g.contexts.contains_key(key) ==> after.contexts[key].context == context && after.contexts[key].key_root == root
            &&& other != key ==> after.contexts.contains_key(other) == g.contexts.contains_key(other)
            &&& g.contexts.contains_key(other) && other != key ==> after.contexts[other] == g.contexts[other]
            &&& after.externs == g.externs
            &&& after.env_deps == g.env_deps
            &&& after.files == g.files
        }),
{
    let after = registered(g, key, context, root, at);
    if g.contexts.contains_key(other) {
        assert(externs_for(after, other) == externs_for(g, other));
    }
}

/// A Rust context is registered as any other, and has the extern crates that it is registered
/// with, all of them in order, and none that it had before; those of other contexts stay.
pub proof fn lemma_registered_rustc(
    g: GraphView,
    key: Seq<char>,
    context: ContextView,
    root: Option<Seq<char>>,
    externs: Seq<(Seq<char>, Seq<char>)>,
    at: u128,
    other: Seq<char>,
)
    ensures
        ({
            let after = registered_rustc(g, key, context, root, externs, at);
            let plain = registered(g, key, context, root, at);
            &&& after.contexts == plain.contexts
            &&& after.files == g.files
            &&& after.env_deps == g.env_deps
            &&& after.externs.contains_key(key) <==> externs.len() > 0
            &&& externs.len() > 0 ==> after.externs[key] == externs
            &&& other != key ==> after.externs.contains_key(other) == g.externs.contains_key(other)
            &&& other != key && g.externs.contains_key(other) ==> after.externs[other] == g.externs[other]
        }),
{
}

/// Ingesting commands changes the verdict on no context that was there; all others are cold.
pub proof fn lemma_ingested_verdicts(
    g: GraphView,
    contexts: Seq<ContextView>,
    times: Seq<u128>,
    key: Seq<char>,
    facts: Seq<FileFact>,
)
    ensures
        g.contexts.contains_key(key) ==> ingested(g, contexts, times).contexts.contains_key(key) && verdict(
            ingested(g, contexts, times),
            key,
            facts,
        ) == verdict(g, key, facts),
        !g.contexts.contains_key(key) ==> verdict(ingested(g, contexts, times), key, facts) == VerdictView::Cold,
    decreases contexts.len(),
{
    if contexts.len() > 0 {
        let before = ingested(g, contexts.drop_last(), times);
        lemma_ingested_verdicts(g, contexts.drop_last(), times, key, facts);
        lemma_registered(
            before,
            key_of(g.style, contexts.last(), None, None),
            contexts.last(),
            None,
            times[contexts.len() - 1],
            key,
            facts,
        );
    }
}

/// Whether two byte strings have distinct hashes, unless they are the same.
pub open spec fn no_collision(a: Seq<u8>, b: Seq<u8>) -> bool {
    blake3_hex(a) == blake3_hex(b) ==> a == b
}

/// On Unix contexts are registered under the same key only where they are the same: the same
/// source, directories and forced headers, and the same definitions, flags, unknown flags and salt.
pub proof fn lemma_keys_tell_contexts_apart(
    a: ContextView,
    b: ContextView,
    root: Option<Seq<char>>,
    salt_a: Option<Seq<char>>,
    salt_b: Option<Seq<char>>,
)
    requires
        no_nul_context(a),
        no_nul_context(b),
        no_nul_option(salt_a),
        no_nul_option(salt_b),
        tellable_context(a, root),
        tellable_context(b, root),
        no_collision(context_bytes(PathStyle::Unix, a, root, salt_a), context_bytes(PathStyle::Unix, b, root, salt_b)),
        key_of(PathStyle::Unix, a, root, salt_a) == key_of(PathStyle::Unix, b, root, salt_b),
    ensures
        parts(PathStyle::Unix, a.source) == parts(PathStyle::Unix, b.source),
        same_paths(a.user, b.user),
        same_paths(a.system, b.system),
        same_paths(a.forced, b.forced),
        a.defines == b.defines,
        a.flags == b.flags,
        a.unknown == b.unknown,
        salt_a == salt_b,
{
    lemma_contexts_are_told_apart(a, b, root, salt_a, salt_b);
}

// ── Recording ───────────────────────────────────────────────────────────

/// Files can be hashed together exactly where each can be.
pub(crate) proof fn lemma_hashed_when(facts: Seq<FileFact>, paths: Seq<Seq<char>>)
    ensures
        hashed(facts, paths) is Some <==> forall|i: int| 0 <= i < paths.len() ==> fact_hash(facts, #[trigger] paths[i]) is Some,
    decreases paths.len(),
{
    if paths.len() > 0 {
        let init = paths.drop_last();
        lemma_hashed_when(facts, init);
        assert(paths[paths.len() - 1] == paths.last());
        if forall|i: int| 0 <= i < paths.len() ==> fact_hash(facts, #[trigger] paths[i]) is Some {
            assert forall|i: int| 0 <= i < init.len() implies fact_hash(facts, #[trigger] init[i]) is Some by {
                assert(init[i] == paths[i]);
            }
        }
        if hashed(facts, paths) is Some {
            assert forall|i: int| 0 <= i < paths.len() implies fact_hash(facts, #[trigger] paths[i]) is Some by {
                if i < init.len() {
                    assert(init[i] == paths[i]);
                }
            }
        }
    }
}

/// The labelled hashes of a list of extern crates are there exactly where every file has a known
/// hash; then there is one for each crate, in order: the crate's name, marked, with the hash of its
/// file.
pub proof fn lemma_extern_hashes(facts: Seq<FileFact>, externs: Seq<(Seq<char>, Seq<char>)>)
    ensures
        hashed_externs(facts, externs) is Some <==> forall|i: int|
            0 <= i < externs.len() ==> fact_hash(facts, (#[trigger] externs[i]).1) is Some,
        hashed_externs(facts, externs) matches Some(list) ==> {
            &&& list.len() == externs.len()
            &&& forall|i: int|
                0 <= i < externs.len() ==> (#[trigger] list[i]).0 == "extern:"@ + externs[i].0 && Some(list[i].1) == fact_hash(
                    facts,
                    externs[i].1,
                )
        },
    decreases externs.len(),
{
    if externs.len() > 0 {
        let init = externs.drop_last();
        lemma_extern_hashes(facts, init);
        assert(externs[externs.len() - 1] == externs.last());
        if forall|i: int| 0 <= i < externs.len() ==> fact_hash(facts, (#[trigger] externs[i]).1) is Some {
            assert forall|i: int| 0 <= i < init.len() implies fact_hash(facts, (#[trigger] init[i]).1) is Some by {
                assert(init[i] == externs[i]);
            }
        }
        if hashed_externs(facts, externs) is Some {
            let list = hashed_externs(facts, externs)->0;
            let before = hashed_externs(facts, init)->0;
            assert forall|i: int| 0 <= i < externs.len() implies fact_hash(facts, (#[trigger] externs[i]).1) is Some by {
                if i < init.len() {
                    assert(init[i] == externs[i]);
                }
            }
            assert forall|i: int| 0 <= i < externs.len() implies (#[trigger] list[i]).0 == "extern:"@ + externs[i].0 && Some(
                list[i].1,
            ) == fact_hash(facts, externs[i].1) by {
                if i < init.len() {
                    assert(list[i] == before[i]);
                    assert(init[i] == externs[i]);
                }
            }
        }
    }
}

/// A compilation is recorded exactly where its context is registered and the hash of every file
/// that it read is known: of its source, its headers, its forced headers and its extern crates.
/// Then the context is warm with what was found, and nothing else changes.
pub proof fn lemma_update_records(
    g: GraphView,
    key: Seq<char>,
    resolved: Seq<Seq<char>>,
    unresolved: Seq<Seq<char>>,
    has_computed: bool,
    facts: Seq<FileFact>,
    at: u128,
)
    ensures
        ({
            let (after, artifact) = updated(g, key, resolved, unresolved, has_computed, facts, at);
            let context = g.contexts[key].context;
            &&& artifact is Some <==> {
                &&& g.contexts.contains_key(key)
                &&& fact_hash(facts, context.source) is Some
                &&& forall|i: int| 0 <= i < resolved.len() ==> fact_hash(facts, #[trigger] resolved[i]) is Some
                &&& forall|i: int| 0 <= i < context.forced.len() ==> fact_hash(facts, #[trigger] context.forced[i]) is Some
                &&& g.externs.contains_key(key) ==> forall|i: int|
                    0 <= i < g.externs[key].len() ==> fact_hash(facts, (#[trigger] g.externs[key][i]).1) is Some
            }
            &&& artifact is None ==> after == g
            &&& artifact is Some ==> {
                &&& after.contexts.dom() == g.contexts.dom()
                &&& forall|k: Seq<char>|
                    k != key && g.contexts.contains_key(k) ==> #[trigger] after.contexts[k] == g.contexts[k]
                &&& after.contexts[key].context == context
                &&& after.contexts[key].key_root == g.contexts[key].key_root
                &&& after.contexts[key].resolved == resolved
                &&& after.contexts[key].unresolved == unresolved
                &&& after.contexts[key].has_computed == has_computed
                &&& after.contexts[key].artifact == artifact
                &&& after.contexts[key].accessed == at
                &&& after.contexts[key].state == ContextState::Warm
                &&& after.externs == g.externs
                &&& after.env_deps == g.env_deps
                &&& after.files == g.files
                &&& after.style == g.style
                &&& after.checks == g.checks && after.hits == g.hits && after.misses == g.misses
            }
        }),
{
    let context = g.contexts[key].context;
    let all = input_files(context, resolved);
    lemma_hashed_when(facts, all);
    lemma_extern_hashes(facts, externs_for(g, key));
    let (after, artifact) = updated(g, key, resolved, unresolved, has_computed, facts, at);
    assert(all[0] == context.source);
    assert forall|i: int| 0 <= i < resolved.len() implies all[i + 1] == #[trigger] resolved[i] by {}
    assert forall|i: int| 0 <= i < context.forced.len() implies all[i + 1 + resolved.len()] == #[trigger] context.forced[i] by {}
    if artifact is Some {
        assert(after.contexts.dom() =~= g.contexts.dom());
        assert forall|i: int| 0 <= i < resolved.len() implies fact_hash(facts, #[trigger] resolved[i]) is Some by {
            assert(fact_hash(facts, all[i + 1]) is Some);
        }
        assert forall|i: int| 0 <= i < context.forced.len() implies fact_hash(facts, #[trigger] context.forced[i]) is Some by {
            assert(fact_hash(facts, all[i + 1 + resolved.len()]) is Some);
        }
    } else if g.contexts.contains_key(key) && fact_hash(facts, context.source) is Some && (forall|i: int|
        0 <= i < resolved.len() ==> fact_hash(facts, #[trigger] resolved[i]) is Some) && (forall|i: int|
        0 <= i < context.forced.len() ==> fact_hash(facts, #[trigger] context.forced[i]) is Some) {
        assert forall|i: int| 0 <= i < all.len() implies fact_hash(facts, #[trigger] all[i]) is Some by {
            if 0 < i <= resolved.len() {
                assert(all[i] == resolved[i - 1]);
            } else if i > resolved.len() {
                assert(all[i] == context.forced[i - 1 - resolved.len()]);
            }
        }
    }
}

// ── Deciding ────────────────────────────────────────────────────────────

/// The changed files of a list, picked in order.
proof fn lemma_changed_filter(
    hashes: Seq<(Seq<char>, Seq<char>)>,
    then: Seq<FileFact>,
    now: Seq<FileFact>,
    all: Seq<Seq<char>>,
    paths: Seq<Seq<char>>,
)
    requires
        hashed(then, all) == Some(hashes),
        forall|i: int| 0 <= i < paths.len() ==> all.contains(#[trigger] paths[i]),
    ensures
        changed_among(hashes, now, paths) == paths.filter(|p: Seq<char>| !vouched(then, now, p)),
    decreases paths.len(),
{
    let pick = |p: Seq<char>| !vouched(then, now, p);
    reveal(Seq::filter);
    if paths.len() > 0 {
        let init = paths.drop_last();
        assert forall|i: int| 0 <= i < init.len() implies all.contains(#[trigger] init[i]) by {
            assert(init[i] == paths[i]);
        }
        lemma_changed_filter(hashes, then, now, all, init);
        assert(all.contains(paths[paths.len() - 1]));
        lemma_recorded(then, all, paths.last());
        assert(changed(hashes, now, paths.last()) == pick(paths.last()));
    } else {
        assert(changed_among(hashes, now, paths) =~= paths.filter(pick));
    }
}

/// The headers and forced headers of a compilation that are not as they were, in order.
pub open spec fn disturbed(then: Seq<FileFact>, now: Seq<FileFact>, headers: Seq<Seq<char>>) -> Seq<Seq<char>> {
    headers.filter(|p: Seq<char>| !vouched(then, now, p))
}

/// The verdict on a recorded compilation, in terms of what was known when it was recorded and what
/// is known now: a scan that could not tell all headers needs the preprocessor; a source that is
/// not as it was is reported; so are the headers and forced headers that are not, all of them and
/// no others; and where all of them are as they were, only the extern crates can tell against the
/// artifact, which is a hit otherwise.
pub proof fn lemma_verdict_compares(
    g: GraphView,
    key: Seq<char>,
    resolved: Seq<Seq<char>>,
    unresolved: Seq<Seq<char>>,
    has_computed: bool,
    then: Seq<FileFact>,
    at: u128,
    now: Seq<FileFact>,
)
    requires
        updated(g, key, resolved, unresolved, has_computed, then, at).1 is Some,
    ensures
        ({
            let (after, artifact) = updated(g, key, resolved, unresolved, has_computed, then, at);
            let context = g.contexts[key].context;
            let headers = disturbed(then, now, resolved + context.forced);
            let v = verdict(after, key, now);
            if has_computed {
                v == VerdictView::NeedsPreprocessor
            } else if !vouched(then, now, context.source) {
                v == VerdictView::SourceChanged(context.source)
            } else if headers.len() > 0 {
                v == VerdictView::HeadersChanged(headers)
            } else if !g.externs.contains_key(key) || g.externs[key].len() == 0 {
                v == VerdictView::Hit(artifact->0)
            } else {
                v == (if externs_agree(after, key, now) {
                    VerdictView::Hit(artifact->0)
                } else {
                    VerdictView::HeadersChanged(Seq::new(g.externs[key].len(), |i: int| g.externs[key][i].1))
                })
            }
        }),
{
    let (after, artifact) = updated(g, key, resolved, unresolved, has_computed, then, at);
    let entry = after.contexts[key];
    let context = g.contexts[key].context;
    let all = input_files(context, resolved);
    let headers = resolved + context.forced;
    assert(all[0] == context.source);
    assert(all.contains(context.source));
    lemma_recorded(then, all, context.source);
    assert forall|i: int| 0 <= i < headers.len() implies all.contains(#[trigger] headers[i]) by {
        assert(all[i + 1] == headers[i]);
    }
    lemma_changed_filter(entry.hashes, then, now, all, headers);
    assert(externs_for(after, key) == externs_for(g, key));
    assert(changed(entry.hashes, now, context.source) == !vouched(then, now, context.source));
    if g.externs.contains_key(key) {
        assert(extern_paths(externs_for(after, key)) =~= Seq::new(g.externs[key].len(), |i: int| g.externs[key][i].1));
    }
}

/// Every header that is reported was read by the compilation and is not as it was, and every one
/// that was read and is not as it was is reported.
pub proof fn lemma_disturbed(then: Seq<FileFact>, now: Seq<FileFact>, headers: Seq<Seq<char>>, path: Seq<char>)
    ensures
        disturbed(then, now, headers).contains(path) <==> headers.contains(path) && !vouched(then, now, path),
{
    let pick = |p: Seq<char>| !vouched(then, now, p);
    lemma_picked(headers, pick, path);
}

/// A recorded artifact is a hit where every file is as it was: the source, the headers and the
/// forced headers, and the contents of every extern crate, which alone count of it.
pub proof fn lemma_unchanged_is_hit(
    g: GraphView,
    key: Seq<char>,
    resolved: Seq<Seq<char>>,
    unresolved: Seq<Seq<char>>,
    then: Seq<FileFact>,
    at: u128,
    now: Seq<FileFact>,
)
    requires
        updated(g, key, resolved, unresolved, false, then, at).1 is Some,
        vouched(then, now, g.contexts[key].context.source),
        forall|i: int| 0 <= i < resolved.len() ==> vouched(then, now, #[trigger] resolved[i]),
        forall|i: int|
            0 <= i < g.contexts[key].context.forced.len() ==> vouched(then, now, #[trigger] g.contexts[key].context.forced[i]),
        g.externs.contains_key(key) ==> forall|i: int|
            0 <= i < g.externs[key].len() ==> fact_hash(now, (#[trigger] g.externs[key][i]).1) == fact_hash(
                then,
                g.externs[key][i].1,
            ),
    ensures
        verdict(updated(g, key, resolved, unresolved, false, then, at).0, key, now) == VerdictView::Hit(
            updated(g, key, resolved, unresolved, false, then, at).1->0,
        ),
{
    let (after, artifact) = updated(g, key, resolved, unresolved, false, then, at);
    let context = g.contexts[key].context;
    let headers = resolved + context.forced;
    lemma_verdict_compares(g, key, resolved, unresolved, false, then, at, now);
    let list = disturbed(then, now, headers);
    if list.len() > 0 {
        assert(list.contains(list[0]));
        lemma_disturbed(then, now, headers, list[0]);
        let i = headers.index_of(list[0]);
        if i < resolved.len() {
            assert(headers[i] == resolved[i]);
        } else {
            assert(headers[i] == context.forced[i - resolved.len()]);
        }
        assert(vouched(then, now, headers[i]));
    }
    let externs = externs_for(g, key);
    lemma_extern_hashes(then, externs);
    lemma_extern_hashes(now, externs);
    assert(externs_for(after, key) == externs);
    if hashed_externs(then, externs) is Some {
        let a = hashed_externs(then, externs)->0;
        assert forall|i: int| 0 <= i < externs.len() implies fact_hash(now, (#[trigger] externs[i]).1) is Some by {
            assert(a[i].0 == "extern:"@ + externs[i].0);
            assert(fact_hash(then, externs[i].1) is Some);
        }
        let b = hashed_externs(now, externs)->0;
        assert(a =~= b) by {
            assert forall|i: int| 0 <= i < a.len() implies a[i] == b[i] by {
                assert(a[i].0 == "extern:"@ + externs[i].0);
                assert(b[i].0 == "extern:"@ + externs[i].0);
                assert(fact_hash(now, externs[i].1) == fact_hash(then, externs[i].1));
            }
        }
    }
    assert(externs_agree(after, key, now));
}

/// What a compilation is made from, labelled: its files as they were, and its extern crates as
/// `facts` has them.
pub open spec fn made_from(
    g: GraphView,
    key: Seq<char>,
    resolved: Seq<Seq<char>>,
    then: Seq<FileFact>,
    facts: Seq<FileFact>,
) -> Seq<(Seq<char>, Seq<char>)> {
    labels(g.style, hashed(then, input_files(g.contexts[key].context, resolved))->0, g.contexts[key].key_root)
        + hashed_externs(facts, externs_for(g, key))->0
}

/// What a compilation is made from: first the files that it read, each with the spelling of its
/// path and its hash, the source first; then the extern crates, each with its marked name and the
/// hash of its file.
pub proof fn lemma_made_from(
    g: GraphView,
    key: Seq<char>,
    resolved: Seq<Seq<char>>,
    unresolved: Seq<Seq<char>>,
    has_computed: bool,
    then: Seq<FileFact>,
    at: u128,
)
    requires
        updated(g, key, resolved, unresolved, has_computed, then, at).1 is Some,
    ensures
        ({
            let context = g.contexts[key].context;
            let root = g.contexts[key].key_root;
            let list = made_from(g, key, resolved, then, then);
            let n = 1 + resolved.len() + context.forced.len();
            &&& list.len() == n + (if g.externs.contains_key(key) {
                g.externs[key].len()
            } else {
                0
            })
            &&& list[0].0 == key_path(g.style, context.source, root) && Some(list[0].1) == fact_hash(then, context.source)
            &&& forall|i: int|
                0 <= i < resolved.len() ==> list[1 + i].0 == key_path(g.style, #[trigger] resolved[i], root) && Some(list[1 + i].1)
                    == fact_hash(then, resolved[i])
            &&& forall|i: int|
                0 <= i < context.forced.len() ==> list[1 + resolved.len() + i].0 == key_path(
                    g.style,
                    #[trigger] context.forced[i],
                    root,
                ) && Some(list[1 + resolved.len() + i].1) == fact_hash(then, context.forced[i])
            &&& g.externs.contains_key(key) ==> forall|i: int|
                0 <= i < g.externs[key].len() ==> list[n + i].0 == "extern:"@ + (#[trigger] g.externs[key][i]).0 && Some(
                    list[n + i].1,
                ) == fact_hash(then, g.externs[key][i].1)
        }),
{
    let context = g.contexts[key].context;
    let all = input_files(context, resolved);
    let list = made_from(g, key, resolved, then, then);
    let files = hashed(then, all)->0;
    let n = 1 + resolved.len() + context.forced.len();
    lemma_hashed_shape(then, all);
    lemma_extern_hashes(then, externs_for(g, key));
    assert(all.len() == n);
    assert forall|i: int| 0 <= i < all.len() implies list[i].0 == key_path(
        g.style,
        #[trigger] all[i],
        g.contexts[key].key_root,
    ) && Some(list[i].1) == fact_hash(then, all[i]) by {
        assert(files[i].0 == all[i]);
    }
    assert(all[0] == context.source);
    assert forall|i: int| 0 <= i < resolved.len() implies list[1 + i].0 == key_path(
        g.style,
        #[trigger] resolved[i],
        g.contexts[key].key_root,
    ) && Some(list[1 + i].1) == fact_hash(then, resolved[i]) by {
        assert(all[1 + i] == resolved[i]);
    }
    assert forall|i: int| 0 <= i < context.forced.len() implies list[1 + resolved.len() + i].0 == key_path(
        g.style,
        #[trigger] context.forced[i],
        g.contexts[key].key_root,
    ) && Some(list[1 + resolved.len() + i].1) == fact_hash(then, context.forced[i]) by {
        assert(all[1 + resolved.len() + i] == context.forced[i]);
    }
    if g.externs.contains_key(key) {
        let externs = g.externs[key];
        let marked = hashed_externs(then, externs)->0;
        assert forall|i: int| 0 <= i < externs.len() implies list[n + i].0 == "extern:"@ + (#[trigger] externs[i]).0 && Some(
            list[n + i].1,
        ) == fact_hash(then, externs[i].1) by {
            assert(list[n + i] == marked[i]);
        }
    }
}

/// Two compilations that made one artifact are of one context and were made from the same contents
/// under the same labels. (Unless two different inputs have one hash.)
pub proof fn lemma_artifacts_tell_contents_apart(
    g: GraphView,
    h: GraphView,
    key_g: Seq<char>,
    key_h: Seq<char>,
    resolved_g: Seq<Seq<char>>,
    resolved_h: Seq<Seq<char>>,
    unresolved: Seq<Seq<char>>,
    has_computed: bool,
    facts_g: Seq<FileFact>,
    facts_h: Seq<FileFact>,
    at: u128,
)
    requires
        updated(g, key_g, resolved_g, unresolved, has_computed, facts_g, at).1 is Some,
        updated(h, key_h, resolved_h, unresolved, has_computed, facts_h, at).1 == updated(
            g,
            key_g,
            resolved_g,
            unresolved,
            has_computed,
            facts_g,
            at,
        ).1,
        no_nul(key_g),
        no_nul(key_h),
        no_nul_pairs(made_from(g, key_g, resolved_g, facts_g, facts_g)),
        no_nul_pairs(made_from(h, key_h, resolved_h, facts_h, facts_h)),
        no_collision(
            artifact_bytes(key_g, made_from(g, key_g, resolved_g, facts_g, facts_g)),
            artifact_bytes(key_h, made_from(h, key_h, resolved_h, facts_h, facts_h)),
        ),
    ensures
        key_g == key_h,
        made_from(g, key_g, resolved_g, facts_g, facts_g).to_multiset() == made_from(h, key_h, resolved_h, facts_h, facts_h).to_multiset(),
{
    lemma_artifact_bytes_determine(
        key_g,
        key_h,
        made_from(g, key_g, resolved_g, facts_g, facts_g),
        made_from(h, key_h, resolved_h, facts_h, facts_h),
    );
}

/// A hit is sound: it names the artifact that was recorded, the scan told all headers, every file
/// that the compilation read is as it was, and every extern crate has a known hash; and, unless two
/// different inputs have one hash, the extern crates have the contents that they had: together, and
/// each crate whose name is not given twice by itself.
pub proof fn lemma_hit_is_sound(
    g: GraphView,
    key: Seq<char>,
    resolved: Seq<Seq<char>>,
    unresolved: Seq<Seq<char>>,
    has_computed: bool,
    then: Seq<FileFact>,
    at: u128,
    now: Seq<FileFact>,
)
    requires
        updated(g, key, resolved, unresolved, has_computed, then, at).1 is Some,
        verdict(updated(g, key, resolved, unresolved, has_computed, then, at).0, key, now) is Hit,
        no_nul(key),
        no_nul_pairs(made_from(g, key, resolved, then, then)),
        no_nul_pairs(made_from(g, key, resolved, then, now)),
        no_collision(
            artifact_bytes(key, made_from(g, key, resolved, then, then)),
            artifact_bytes(key, made_from(g, key, resolved, then, now)),
        ),
    ensures
        ({
            let (after, artifact) = updated(g, key, resolved, unresolved, has_computed, then, at);
            let context = g.contexts[key].context;
            &&& verdict(after, key, now) == VerdictView::Hit(artifact->0)
            &&& !has_computed
            &&& vouched(then, now, context.source)
            &&& forall|i: int| 0 <= i < resolved.len() ==> vouched(then, now, #[trigger] resolved[i])
            &&& forall|i: int| 0 <= i < context.forced.len() ==> vouched(then, now, #[trigger] context.forced[i])
            &&& g.externs.contains_key(key) ==> {
                let externs = g.externs[key];
                &&& forall|i: int| 0 <= i < externs.len() ==> fact_hash(now, (#[trigger] externs[i]).1) is Some
                &&& named_hashes(now, externs).to_multiset() == named_hashes(then, externs).to_multiset()
                &&& forall|i: int|
                    0 <= i < externs.len() && named_once(externs, i) ==> fact_hash(now, (#[trigger] externs[i]).1)
                        == fact_hash(then, externs[i].1)
            }
        }),
{
    let (after, artifact) = updated(g, key, resolved, unresolved, has_computed, then, at);
    let context = g.contexts[key].context;
    let headers = resolved + context.forced;
    lemma_verdict_compares(g, key, resolved, unresolved, has_computed, then, at, now);
    assert forall|i: int| 0 <= i < resolved.len() implies vouched(then, now, #[trigger] resolved[i]) by {
        assert(headers[i] == resolved[i]);
        lemma_disturbed(then, now, headers, resolved[i]);
    }
    assert forall|i: int| 0 <= i < context.forced.len() implies vouched(then, now, #[trigger] context.forced[i]) by {
        assert(headers[i + resolved.len()] == context.forced[i]);
        lemma_disturbed(then, now, headers, context.forced[i]);
    }
    if g.externs.contains_key(key) {
        let externs = g.externs[key];
        assert(externs_for(after, key) == externs);
        lemma_extern_hashes(then, externs);
        lemma_extern_hashes(now, externs);
        if externs.len() > 0 {
            let files = labels(g.style, hashed(then, input_files(context, resolved))->0, g.contexts[key].key_root);
            let a = hashed_externs(then, externs)->0;
            let b = hashed_externs(now, externs)->0;
            assert(hashed_externs(now, externs) is Some);
            lemma_artifact_bytes_determine(key, key, files + a, files + b);
            lemma_cancel(files, a, b);
            lemma_named_hashes(then, externs);
            lemma_named_hashes(now, externs);
            lemma_unmarked(a, named_hashes(then, externs), b, named_hashes(now, externs));
            assert forall|i: int| 0 <= i < externs.len() && named_once(externs, i) implies fact_hash(
                now,
                (#[trigger] externs[i]).1,
            ) == fact_hash(then, externs[i].1) by {
                let x = named_hashes(then, externs);
                let y = named_hashes(now, externs);
                assert(x.contains(x[i]));
                crate::order::lemma_same_items(x, y, x[i]);
                let j = y.index_of(x[i]);
                assert(y[j] == x[i]);
                assert(externs[j].0 == externs[i].0);
                assert(j == i);
                assert(a[i].0 == "extern:"@ + externs[i].0);
                assert(b[i].0 == "extern:"@ + externs[i].0);
            }
        } else {
            assert(named_hashes(now, externs) =~= named_hashes(then, externs));
        }
    }
}

/// The names of extern crates, each with the hash of its file.
pub open spec fn named_hashes(facts: Seq<FileFact>, externs: Seq<(Seq<char>, Seq<char>)>) -> Seq<
    (Seq<char>, Option<Seq<char>>),
> {
    Seq::new(externs.len(), |i: int| (externs[i].0, fact_hash(facts, externs[i].1)))
}

/// Whether no other extern crate has the name of this one.
pub open spec fn named_once(externs: Seq<(Seq<char>, Seq<char>)>, i: int) -> bool {
    forall|j: int| 0 <= j < externs.len() && (#[trigger] externs[j]).0 == externs[i].0 ==> j == i
}

/// A labelled hash without the mark on its name.
spec fn unmarked(x: (Seq<char>, Seq<char>)) -> (Seq<char>, Option<Seq<char>>) {
    (x.0.skip(7), Some(x.1))
}

/// Taking the marks away gives the names.
proof fn lemma_named_hashes(facts: Seq<FileFact>, externs: Seq<(Seq<char>, Seq<char>)>)
    requires
        hashed_externs(facts, externs) is Some,
    ensures
        hashed_externs(facts, externs)->0.map_values(|x: (Seq<char>, Seq<char>)| unmarked(x)) == named_hashes(facts, externs),
{
    reveal_strlit("extern:");
    lemma_extern_hashes(facts, externs);
    let list = hashed_externs(facts, externs)->0;
    assert forall|i: int| 0 <= i < externs.len() implies unmarked(list[i]) == named_hashes(facts, externs)[i] by {
        assert(list[i].0 == "extern:"@ + externs[i].0);
        assert(list[i].0.skip(7) =~= externs[i].0);
    }
    assert(list.map_values(|x: (Seq<char>, Seq<char>)| unmarked(x)) =~= named_hashes(facts, externs));
}

/// What holds the same labelled hashes holds the same names with their hashes.
proof fn lemma_unmarked(
    a: Seq<(Seq<char>, Seq<char>)>,
    x: Seq<(Seq<char>, Option<Seq<char>>)>,
    b: Seq<(Seq<char>, Seq<char>)>,
    y: Seq<(Seq<char>, Option<Seq<char>>)>,
)
    requires
        a.to_multiset() == b.to_multiset(),
        a.map_values(|x: (Seq<char>, Seq<char>)| unmarked(x)) == x,
        b.map_values(|x: (Seq<char>, Seq<char>)| unmarked(x)) == y,
    ensures
        x.to_multiset() == y.to_multiset(),
{
    crate::order::lemma_same_images(a, b, |x: (Seq<char>, Seq<char>)| unmarked(x));
}

/// What stands in front of both can be left out.
proof fn lemma_cancel<A>(front: Seq<A>, a: Seq<A>, b: Seq<A>)
    requires
        (front + a).to_multiset() == (front + b).to_multiset(),
    ensures
        a.to_multiset() == b.to_multiset(),
{
    vstd::seq_lib::lemma_multiset_commutative(front, a);
    vstd::seq_lib::lemma_multiset_commutative(front, b);
    let f = front.to_multiset();
    let x = a.to_multiset();
    let y = b.to_multiset();
    assert forall|v: A| x.count(v) == y.count(v) by {
        assert(f.add(x).count(v) == f.count(v) + x.count(v));
        assert(f.add(y).count(v) == f.count(v) + y.count(v));
    }
    assert(x =~= y);
}

/// A rebuilt extern crate is a miss: where the files are as they were but an extern crate whose
/// name is given once has no known hash, or another than then, the verdict reports the files of all
/// extern crates. (Unless two different inputs have one hash.)
pub proof fn lemma_rebuilt_extern_is_miss(
    g: GraphView,
    key: Seq<char>,
    resolved: Seq<Seq<char>>,
    unresolved: Seq<Seq<char>>,
    then: Seq<FileFact>,
    at: u128,
    now: Seq<FileFact>,
    i: int,
)
    requires
        updated(g, key, resolved, unresolved, false, then, at).1 is Some,
        g.externs.contains_key(key),
        0 <= i < g.externs[key].len(),
        named_once(g.externs[key], i),
        fact_hash(now, g.externs[key][i].1) != fact_hash(then, g.externs[key][i].1),
        vouched(then, now, g.contexts[key].context.source),
        disturbed(then, now, resolved + g.contexts[key].context.forced).len() == 0,
        no_nul(key),
        no_nul_pairs(made_from(g, key, resolved, then, then)),
        no_nul_pairs(made_from(g, key, resolved, then, now)),
        no_collision(
            artifact_bytes(key, made_from(g, key, resolved, then, then)),
            artifact_bytes(key, made_from(g, key, resolved, then, now)),
        ),
    ensures
        verdict(updated(g, key, resolved, unresolved, false, then, at).0, key, now) == VerdictView::HeadersChanged(
            Seq::new(g.externs[key].len(), |i: int| g.externs[key][i].1),
        ),
{
    lemma_verdict_compares(g, key, resolved, unresolved, false, then, at, now);
    if verdict(updated(g, key, resolved, unresolved, false, then, at).0, key, now) is Hit {
        lemma_hit_is_sound(g, key, resolved, unresolved, false, then, at, now);
        assert(named_once(g.externs[key], i));
        assert(fact_hash(now, g.externs[key][i].1) == fact_hash(then, g.externs[key][i].1));
    }
}

/// What was never recorded, or is out of date, is cold.
pub proof fn lemma_cold(g: GraphView, key: Seq<char>, facts: Seq<FileFact>)
    ensures
        verdict(g, key, facts) == VerdictView::Cold <==> !g.contexts.contains_key(key) || g.contexts[key].state
            != ContextState::Warm || g.contexts[key].artifact is None,
{
}

/// A fast hit is a hit of the check, and every hit of the check is a fast one.
pub proof fn lemma_fast_hit(g: GraphView, key: Seq<char>, facts: Seq<FileFact>, artifact: Seq<char>)
    ensures
        fast_hit(g, key, facts) == Some(artifact) <==> verdict(g, key, facts) == VerdictView::Hit(artifact),
{
}

/// A context counts as never recorded from when it is registered until a compilation is recorded
/// for it, and not again after that: not even where a check finds it out of date.
pub proof fn lemma_never_recorded(
    g: GraphView,
    key: Seq<char>,
    context: ContextView,
    root: Option<Seq<char>>,
    at: u128,
    resolved: Seq<Seq<char>>,
    unresolved: Seq<Seq<char>>,
    has_computed: bool,
    then: Seq<FileFact>,
    now: Seq<FileFact>,
)
    ensures
        !g.contexts.contains_key(key) ==> never_recorded(g, key) && never_recorded(registered(g, key, context, root, at), key),
        g.contexts.contains_key(key) ==> never_recorded(registered(g, key, context, root, at), key) == never_recorded(g, key),
        updated(g, key, resolved, unresolved, has_computed, then, at).1 is Some ==> !never_recorded(
            updated(g, key, resolved, unresolved, has_computed, then, at).0,
            key,
        ),
        !never_recorded(g, key) ==> !never_recorded(checked(g, key, now, at), key),
{
}

/// A check that finds a change leaves the context cold until a compilation is recorded again;
/// every other check leaves the verdicts on all contexts as they were.
pub proof fn lemma_checked(g: GraphView, key: Seq<char>, facts: Seq<FileFact>, at: u128, other: Seq<char>, later: Seq<FileFact>)
    ensures
        ({
            let after = checked(g, key, facts, at);
            let v = verdict(g, key, facts);
            &&& other == key && (v is SourceChanged || v is HeadersChanged) ==> verdict(after, other, later) == VerdictView::Cold
            &&& other != key || !(v is SourceChanged || v is HeadersChanged) ==> verdict(after, other, later) == verdict(
                g,
                other,
                later,
            )
            &&& after.contexts.dom() == g.contexts.dom()
            &&& g.contexts.contains_key(key) ==> after.contexts[key].accessed == at
        }),
{
    let after = checked(g, key, facts, at);
    assert(after.contexts.dom() =~= g.contexts.dom());
    assert(externs_for(after, other) == externs_for(g, other));
}

} // verus!
