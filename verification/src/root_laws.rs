//! What holds of worktree roots, of the flags that hide them, and of contexts made from command
//! lines.

use vstd::prelude::*;
use crate::command::{bare_context, cc_context};
use crate::context::{lemma_merged, ParsedArgs};
use crate::graph::ingest::command_contexts;
use crate::keys::{
    auto_remap, cc_flags, cc_mapping, compile_root, configured, dot_git, env_value, first_worktree, git_root,
    has_cc_mapping, is_worktree, key_root_of, maps_dir, root_probes, worktree_bound, CompilerFamily, SessionRoot, SourceMode,
};
use crate::path::{
    absolute, ancestors_of, clean, joined_path, key_form, lemma_clean_keeps_parts, lemma_unix_ancestor, parts, path_views, resolved,
    stem_of, under, PathStyle,
};
use crate::probe::{kind_at, probe_at, size_at, FileKind, Probe};
use crate::remap::{args_remap, context_root, gate, remap_values, remaps, same_key, values_remap, RustRemapGate};
use crate::request::{added_maps, auto_flags, effective};
use crate::request_apart::{is_value, lemma_after_prefix, lemma_mapping_read, lemma_split_sides};
use crate::request_laws::{lemma_added_maps, lemma_cc_mapping_reads_back, lemma_prefix, lemma_split_equals, mapping_text, no_equals};
use crate::text::{lower_ascii, split_once_at, views, without_prefix};

verus! {

// ── Looks at the file system ────────────────────────────────────────────

/// Where a probe is found.
proof fn lemma_probe_at(probes: Seq<Probe>, path: Seq<char>)
    ensures
        0 <= probe_at(probes, path) <= probes.len(),
    decreases probes.len(),
{
    if probes.len() > 0 && probes[0].path@ != path {
        lemma_probe_at(probes.drop_first(), path);
    }
}

/// What stands at a path is what the first look at it found.
pub proof fn lemma_first_probe_counts(probes: Seq<Probe>, at: int)
    requires
        0 <= at < probes.len(),
        forall|j: int| 0 <= j < at ==> (#[trigger] probes[j]).path@ != probes[at].path@,
    ensures
        kind_at(probes, probes[at].path@) == probes[at].kind,
        size_at(probes, probes[at].path@) == probes[at].size,
    decreases probes.len(),
{
    let path = probes[at].path@;
    if at > 0 {
        assert(probes[0].path@ != path);
        let rest = probes.drop_first();
        assert(rest[at - 1] == probes[at]);
        assert forall|j: int| 0 <= j < at - 1 implies (#[trigger] rest[j]).path@ != rest[at - 1].path@ by {
            assert(rest[j] == probes[j + 1]);
        }
        lemma_first_probe_counts(rest, at - 1);
        lemma_probe_at(probes, path);
        lemma_probe_at(rest, path);
    }
}

/// Nothing stands where nobody looked.
pub proof fn lemma_no_probe_is_missing(probes: Seq<Probe>, path: Seq<char>)
    requires
        forall|j: int| 0 <= j < probes.len() ==> (#[trigger] probes[j]).path@ != path,
    ensures
        kind_at(probes, path) == FileKind::Missing,
    decreases probes.len(),
{
    if probes.len() > 0 {
        assert(probes[0].path@ != path);
        let rest = probes.drop_first();
        assert forall|j: int| 0 <= j < rest.len() implies (#[trigger] rest[j]).path@ != path by {
            assert(rest[j] == probes[j + 1]);
        }
        lemma_no_probe_is_missing(rest, path);
        lemma_probe_at(rest, path);
    }
}

// ── The environment ─────────────────────────────────────────────────────

/// The value of a variable is the first one under its name, unless that is empty.
pub proof fn lemma_env_value(env: Seq<(Seq<char>, Seq<char>)>, name: Seq<char>, at: int)
    requires
        0 <= at < env.len(),
        env[at].0 == name,
        forall|j: int| 0 <= j < at ==> (#[trigger] env[j]).0 != name,
    ensures
        env_value(env, name) == (if env[at].1.len() == 0 {
            None
        } else {
            Some(env[at].1)
        }),
    decreases env.len(),
{
    if at > 0 {
        assert(env[0].0 != name);
        let rest = env.drop_first();
        assert(rest[at - 1] == env[at]);
        assert forall|j: int| 0 <= j < at - 1 implies (#[trigger] rest[j]).0 != name by {
            assert(rest[j] == env[j + 1]);
        }
        lemma_env_value(rest, name, at - 1);
    }
}

/// A variable that is not set has no value.
pub proof fn lemma_env_unset(env: Seq<(Seq<char>, Seq<char>)>, name: Seq<char>)
    requires
        forall|j: int| 0 <= j < env.len() ==> (#[trigger] env[j]).0 != name,
    ensures
        env_value(env, name) is None,
    decreases env.len(),
{
    if env.len() > 0 {
        assert(env[0].0 != name);
        let rest = env.drop_first();
        assert forall|j: int| 0 <= j < rest.len() implies (#[trigger] rest[j]).0 != name by {
            assert(rest[j] == env[j + 1]);
        }
        lemma_env_unset(rest, name);
    }
}

/// Remapping is asked for exactly by the value `auto`, in any case, of `ZCCACHE_PATH_REMAP`.
pub proof fn lemma_auto_remap(env: Seq<(Seq<char>, Seq<char>)>)
    ensures
        auto_remap(env) <==> (env_value(env, "ZCCACHE_PATH_REMAP"@) matches Some(v) && lower_ascii(v) == "auto"@),
{
    reveal_strlit("auto");
    assert(lower_ascii("auto"@) =~= "auto"@);
}

// ── The worktree root ───────────────────────────────────────────────────

/// The first marked directory of a list is the one found.
proof fn lemma_first_worktree(style: PathStyle, probes: Seq<Probe>, dirs: Seq<Seq<char>>)
    ensures
        match first_worktree(style, probes, dirs) {
            Some(dir) => exists|i: int|
                0 <= i < dirs.len() && #[trigger] dirs[i] == dir && is_worktree(style, probes, dirs[i]) && forall|j: int|
                    0 <= j < i ==> !is_worktree(style, probes, #[trigger] dirs[j]),
            None => forall|j: int| 0 <= j < dirs.len() ==> !is_worktree(style, probes, #[trigger] dirs[j]),
        },
    decreases dirs.len(),
{
    if dirs.len() > 0 {
        if is_worktree(style, probes, dirs[0]) {
            assert(dirs[0] == dirs[0]);
        } else {
            let rest = dirs.drop_first();
            lemma_first_worktree(style, probes, rest);
            match first_worktree(style, probes, rest) {
                Some(dir) => {
                    let i = choose|i: int|
                        0 <= i < rest.len() && #[trigger] rest[i] == dir && is_worktree(style, probes, rest[i]) && forall|j: int|
                            0 <= j < i ==> !is_worktree(style, probes, #[trigger] rest[j]);
                    assert(dirs[i + 1] == dir);
                    assert forall|j: int| 0 <= j < i + 1 implies !is_worktree(style, probes, #[trigger] dirs[j]) by {
                        if j > 0 {
                            assert(rest[j - 1] == dirs[j]);
                        }
                    }
                },
                None => {
                    assert forall|j: int| 0 <= j < dirs.len() implies !is_worktree(style, probes, #[trigger] dirs[j]) by {
                        if j > 0 {
                            assert(rest[j - 1] == dirs[j]);
                        }
                    }
                },
            }
        }
    }
}

/// Whether a directory or a file `.git` marks a directory.
pub open spec fn marked(style: PathStyle, probes: Seq<Probe>, dir: Seq<char>) -> bool {
    let kind = kind_at(probes, joined_path(style, dir, ".git"@));
    kind == FileKind::Directory || kind == FileKind::File
}

/// The worktree around a directory is the innermost of the directory and its ancestors that is
/// marked; there is none where none of them is.
pub proof fn lemma_git_root(style: PathStyle, cwd: Seq<char>, probes: Seq<Probe>)
    ensures
        match git_root(style, cwd, probes) {
            Some(root) => exists|i: int|
                0 <= i < ancestors_of(style, cwd).len() && clean(style, #[trigger] ancestors_of(style, cwd)[i]) == root && marked(
                    style,
                    probes,
                    ancestors_of(style, cwd)[i],
                ) && forall|j: int| 0 <= j < i ==> !marked(style, probes, #[trigger] ancestors_of(style, cwd)[j]),
            None => forall|j: int|
                0 <= j < ancestors_of(style, cwd).len() ==> !marked(style, probes, #[trigger] ancestors_of(style, cwd)[j]),
        },
{
    let dirs = ancestors_of(style, cwd);
    lemma_first_worktree(style, probes, dirs);
    assert forall|d: Seq<char>| #[trigger] is_worktree(style, probes, d) == marked(style, probes, d) by {}
    match first_worktree(style, probes, dirs) {
        Some(dir) => {
            let i = choose|i: int|
                0 <= i < dirs.len() && #[trigger] dirs[i] == dir && is_worktree(style, probes, dirs[i]) && forall|j: int|
                    0 <= j < i ==> !is_worktree(style, probes, #[trigger] dirs[j]);
            assert(clean(style, dirs[i]) == git_root(style, cwd, probes)->0);
        },
        None => {},
    }
}

/// On Unix the ancestors of an absolute path are the path itself and what is left of it when its
/// last components are taken away, one more each time, up to the root.
pub proof fn lemma_ancestors(s: Seq<char>, i: int)
    requires
        absolute(PathStyle::Unix, s),
        0 <= i < ancestors_of(PathStyle::Unix, s).len(),
    ensures
        ancestors_of(PathStyle::Unix, s).len() == parts(PathStyle::Unix, s).len(),
        parts(PathStyle::Unix, ancestors_of(PathStyle::Unix, s)[i]) == parts(PathStyle::Unix, s).take(
            parts(PathStyle::Unix, s).len() - i,
        ),
        under(PathStyle::Unix, s, ancestors_of(PathStyle::Unix, s)[i]),
{
    lemma_unix_ancestor(s, i);
}

/// All marks that decide on the worktree are looked at, and the configured root.
pub proof fn lemma_root_probes(style: PathStyle, cwd: Seq<char>, env: Seq<(Seq<char>, Seq<char>)>)
    ensures
        forall|i: int|
            0 <= i < ancestors_of(style, cwd).len() ==> root_probes(style, cwd, env).contains(
                joined_path(style, #[trigger] ancestors_of(style, cwd)[i], ".git"@),
            ),
        env_value(env, "ZCCACHE_WORKTREE_ROOT"@) matches Some(v) ==> root_probes(style, cwd, env).contains(resolved(style, cwd, v)),
{
    let dirs = ancestors_of(style, cwd);
    let all = root_probes(style, cwd, env);
    assert forall|i: int| 0 <= i < dirs.len() implies all.contains(joined_path(style, #[trigger] dirs[i], ".git"@)) by {
        assert(all[i] == dot_git(style, dirs[i]));
    }
    if env_value(env, "ZCCACHE_WORKTREE_ROOT"@) is Some {
        assert(all[all.len() - 1] == configured(style, cwd, env)->0);
    }
}

/// The worktree root of a compilation: a configured root that is a directory goes before all, and
/// one that is none leaves the innermost worktree; without a configured one, the session's root
/// holds for everything below it; a session without a worktree says so for everything below its
/// directory, unless remapping is asked for; else the innermost worktree counts; and where there is
/// none and remapping is asked for, the working directory.
pub proof fn lemma_compile_root(
    style: PathStyle,
    session: Option<&SessionRoot>,
    cwd: Seq<char>,
    env: Seq<(Seq<char>, Seq<char>)>,
    probes: Seq<Probe>,
)
    ensures
        compile_root(style, session, cwd, env, probes) == (match env_value(env, "ZCCACHE_WORKTREE_ROOT"@) {
            Some(v) => if kind_at(probes, resolved(style, cwd, v)) == FileKind::Directory {
                Some(clean(style, resolved(style, cwd, v)))
            } else {
                git_root(style, cwd, probes)
            },
            None => if session is Some && session->0.root is Some && under(style, cwd, session->0.root->0@) {
                Some(session->0.root->0@)
            } else if session is Some && session->0.root is None && under(style, cwd, session->0.working_dir@) && !auto_remap(env) {
                None
            } else if git_root(style, cwd, probes) is Some {
                git_root(style, cwd, probes)
            } else if auto_remap(env) {
                Some(clean(style, cwd))
            } else {
                None
            },
        }),
{
    lemma_clean_keeps_parts(style, cwd);
}

// ── Mappings of rustc ───────────────────────────────────────────────────

/// Whether a value stands on the command line as a mapping of `rustc`: behind the flag as the next
/// argument, or behind `=` in the same one.
pub open spec fn stands(args: Seq<Seq<char>>, j: int, value: Seq<char>) -> bool {
    if is_value(args, j) {
        args[j] == value
    } else {
        args[j] == "--remap-path-prefix="@ + value
    }
}

/// The mappings of a command line are those that stand on it.
pub proof fn lemma_remap_values(args: Seq<Seq<char>>, value: Seq<char>)
    ensures
        remap_values(args, 0).contains(value) <==> exists|j: int| 0 <= j < args.len() && #[trigger] stands(args, j, value),
{
    lemma_remap_values_from(args, 0, value);
}

/// The mappings from some position on.
proof fn lemma_remap_values_from(args: Seq<Seq<char>>, i: int, value: Seq<char>)
    requires
        0 <= i <= args.len(),
        !is_value(args, i),
    ensures
        remap_values(args, i).contains(value) <==> exists|j: int| i <= j < args.len() && #[trigger] stands(args, j, value),
    decreases args.len() - i,
{
    let all = remap_values(args, i);
    if i < args.len() {
        if args[i] == "--remap-path-prefix"@ {
            assert(is_value(args, i + 1));
            assert(!stands(args, i, value)) by {
                reveal_strlit("--remap-path-prefix");
                reveal_strlit("--remap-path-prefix=");
            }
            if i + 1 < args.len() {
                let rest = remap_values(args, i + 2);
                lemma_remap_values_from(args, i + 2, value);
                lemma_in_front(args[i + 1], rest, value);
                if exists|j: int| i <= j < args.len() && #[trigger] stands(args, j, value) {
                    let j = choose|j: int| i <= j < args.len() && #[trigger] stands(args, j, value);
                    assert(j == i + 1 || i + 2 <= j);
                }
                if args[i + 1] == value {
                    assert(stands(args, i + 1, value));
                }
                if rest.contains(value) {
                    let j = choose|j: int| i + 2 <= j < args.len() && #[trigger] stands(args, j, value);
                    assert(stands(args, j, value));
                }
            }
        } else {
            let rest = remap_values(args, i + 1);
            assert(!is_value(args, i + 1));
            lemma_remap_values_from(args, i + 1, value);
            lemma_after_prefix(args[i], "--remap-path-prefix="@);
            lemma_prefix("--remap-path-prefix="@, value);
            match without_prefix(args[i], "--remap-path-prefix="@) {
                Some(v) => {
                    lemma_in_front(v, rest, value);
                    assert(stands(args, i, v));
                },
                None => {
                    assert(all =~= rest);
                },
            }
            if exists|j: int| i <= j < args.len() && #[trigger] stands(args, j, value) {
                let j = choose|j: int| i <= j < args.len() && #[trigger] stands(args, j, value);
                if j == i {
                    assert(without_prefix(args[i], "--remap-path-prefix="@) == Some(value));
                } else {
                    assert(i + 1 <= j);
                }
            }
            if rest.contains(value) {
                let j = choose|j: int| i + 1 <= j < args.len() && #[trigger] stands(args, j, value);
                assert(stands(args, j, value));
            }
        }
    }
}

/// One item more in front.
proof fn lemma_in_front(x: Seq<char>, rest: Seq<Seq<char>>, value: Seq<char>)
    ensures
        (seq![x] + rest).contains(value) <==> x == value || rest.contains(value),
{
    let all = seq![x] + rest;
    assert(all[0] == x);
    if rest.contains(value) {
        assert(all[rest.index_of(value) + 1] == value);
    }
    if all.contains(value) && x != value {
        assert(rest[all.index_of(value) - 1] == value);
    }
}

/// Whether a mapping maps an absolute directory with the spelling of `root`.
pub open spec fn maps_root(style: PathStyle, value: Seq<char>, root: Seq<char>) -> bool {
    exists|from: Seq<char>, to: Seq<char>|
        value == #[trigger] mapping_text(from, to) && no_equals(from) && absolute(style, from) && key_form(style, from) == key_form(
            style,
            root,
        )
}

/// What a mapping maps.
proof fn lemma_remaps(style: PathStyle, value: Seq<char>, root: Seq<char>)
    ensures
        remaps(style, value, root) <==> maps_root(style, value, root),
{
    lemma_split_sides(value);
    if remaps(style, value, root) {
        let (from, to) = split_once_at(value, '=')->0;
        assert(value == mapping_text(from, to));
    }
    if maps_root(style, value, root) {
        let (from, to) = choose|from: Seq<char>, to: Seq<char>|
            value == #[trigger] mapping_text(from, to) && no_equals(from) && absolute(style, from) && key_form(style, from)
                == key_form(style, root);
        lemma_split_equals(from, to);
    }
}

/// A request key is relative to the worktree root, but that of Rust only where a mapping that
/// stands on the command line maps the root.
pub proof fn lemma_key_root(style: PathStyle, family: CompilerFamily, args: Seq<Seq<char>>, root: Option<Seq<char>>)
    ensures
        family != CompilerFamily::Rustc ==> key_root_of(style, family, args, root) == root,
        root is None ==> key_root_of(style, family, args, root) is None,
        family == CompilerFamily::Rustc && root is Some ==> (if exists|j: int, value: Seq<char>|
            0 <= j < args.len() && #[trigger] stands(args, j, value) && maps_root(style, value, root->0) {
            key_root_of(style, family, args, root) == root
        } else {
            key_root_of(style, family, args, root) is None
        }),
{
    if family == CompilerFamily::Rustc && root is Some {
        let r = root->0;
        let values = remap_values(args, 0);
        if args_remap(style, args, r) {
            let i = choose|i: int| 0 <= i < values.len() && remaps(style, #[trigger] values[i], r);
            lemma_remap_values(args, values[i]);
            assert(values.contains(values[i]));
            lemma_remaps(style, values[i], r);
            let j = choose|j: int| 0 <= j < args.len() && #[trigger] stands(args, j, values[i]);
            assert(stands(args, j, values[i]) && maps_root(style, values[i], r));
        }
        if exists|j: int, value: Seq<char>|
            0 <= j < args.len() && #[trigger] stands(args, j, value) && maps_root(style, value, r) {
            let (j, value) = choose|j: int, value: Seq<char>|
                0 <= j < args.len() && #[trigger] stands(args, j, value) && maps_root(style, value, r);
            lemma_remap_values(args, value);
            lemma_remaps(style, value, r);
            let i = values.index_of(value);
            assert(remaps(style, values[i], r));
        }
    }
}

/// Whether a mapping is malformed: it has no `=`, or what stands before the first is no absolute
/// path.
pub open spec fn ill_formed(style: PathStyle, value: Seq<char>) -> bool {
    forall|from: Seq<char>, to: Seq<char>|
        value == #[trigger] mapping_text(from, to) && no_equals(from) ==> !absolute(style, from)
}

/// Whether a mapping maps an absolute directory whose spelling neither is that of `root` nor
/// continues it behind a slash.
pub open spec fn maps_elsewhere(style: PathStyle, value: Seq<char>, root: Seq<char>) -> bool {
    exists|from: Seq<char>, to: Seq<char>|
        value == #[trigger] mapping_text(from, to) && no_equals(from) && absolute(style, from) && key_form(style, from) != key_form(
            style,
            root,
        ) && !(key_form(style, root) + "/"@).is_prefix_of(key_form(style, from))
}

/// What the mappings of a Rust command line come to: they pass where one maps the root; else a
/// malformed one is reported before one that maps a directory elsewhere, and both before that
/// nothing maps the root.
pub proof fn lemma_gate(style: PathStyle, values: Seq<Seq<char>>, root: Seq<char>)
    ensures
        gate(style, values, Some(root)) == (if exists|i: int| 0 <= i < values.len() && maps_root(style, #[trigger] values[i], root) {
            RustRemapGate::Pass
        } else if exists|i: int| 0 <= i < values.len() && ill_formed(style, #[trigger] values[i]) {
            RustRemapGate::Malformed
        } else if exists|i: int| 0 <= i < values.len() && maps_elsewhere(style, #[trigger] values[i], root) {
            RustRemapGate::OldOutsideRoot
        } else {
            RustRemapGate::Missing
        }),
        gate(style, values, None) == RustRemapGate::Missing,
{
    assert forall|i: int| 0 <= i < values.len() implies remaps(style, #[trigger] values[i], root) == maps_root(
        style,
        values[i],
        root,
    ) && crate::remap::malformed(style, values[i]) == ill_formed(style, values[i]) && crate::remap::outside_root(
        style,
        values[i],
        root,
    ) == maps_elsewhere(style, values[i], root) by {
        lemma_remaps(style, values[i], root);
        lemma_kinds_of_mappings(style, values[i], root);
    }
    if values_remap(style, values, root) {
        let i = choose|i: int| 0 <= i < values.len() && remaps(style, #[trigger] values[i], root);
        assert(maps_root(style, values[i], root));
    }
    if exists|i: int| 0 <= i < values.len() && maps_root(style, #[trigger] values[i], root) {
        let i = choose|i: int| 0 <= i < values.len() && maps_root(style, #[trigger] values[i], root);
        assert(remaps(style, values[i], root));
    }
    if exists|i: int| 0 <= i < values.len() && ill_formed(style, #[trigger] values[i]) {
        let i = choose|i: int| 0 <= i < values.len() && ill_formed(style, #[trigger] values[i]);
        assert(crate::remap::malformed(style, values[i]));
    }
    if exists|i: int| 0 <= i < values.len() && crate::remap::malformed(style, #[trigger] values[i]) {
        let i = choose|i: int| 0 <= i < values.len() && crate::remap::malformed(style, #[trigger] values[i]);
        assert(ill_formed(style, values[i]));
    }
    if exists|i: int| 0 <= i < values.len() && maps_elsewhere(style, #[trigger] values[i], root) {
        let i = choose|i: int| 0 <= i < values.len() && maps_elsewhere(style, #[trigger] values[i], root);
        assert(crate::remap::outside_root(style, values[i], root));
    }
    if exists|i: int| 0 <= i < values.len() && crate::remap::outside_root(style, #[trigger] values[i], root) {
        let i = choose|i: int| 0 <= i < values.len() && crate::remap::outside_root(style, #[trigger] values[i], root);
        assert(maps_elsewhere(style, values[i], root));
    }
}

/// How a mapping that does not map the root is read.
proof fn lemma_kinds_of_mappings(style: PathStyle, value: Seq<char>, root: Seq<char>)
    ensures
        crate::remap::malformed(style, value) == ill_formed(style, value),
        crate::remap::outside_root(style, value, root) == maps_elsewhere(style, value, root),
{
    lemma_split_sides(value);
    if let Some((from, to)) = split_once_at(value, '=') {
        assert(value == mapping_text(from, to) && no_equals(from));
    }
    assert forall|from: Seq<char>, to: Seq<char>| value == #[trigger] mapping_text(from, to) && no_equals(from) implies split_once_at(
        value,
        '=',
    ) == Some((from, to)) by {
        lemma_split_equals(from, to);
    }
}

/// A Rust context key is relative to the worktree root exactly where one of the mappings maps it:
/// as a request key is by the mappings that stand on its command line.
pub proof fn lemma_context_root(style: PathStyle, values: Seq<Seq<char>>, root: Seq<char>)
    ensures
        context_root(style, values, None) is None,
        if exists|i: int| 0 <= i < values.len() && maps_root(style, #[trigger] values[i], root) {
            context_root(style, values, Some(root)) == Some(root)
        } else {
            context_root(style, values, Some(root)) is None
        },
{
    lemma_gate(style, values, root);
    assert forall|i: int| 0 <= i < values.len() implies remaps(style, #[trigger] values[i], root) == maps_root(
        style,
        values[i],
        root,
    ) by {
        lemma_remaps(style, values[i], root);
    }
    if values_remap(style, values, root) {
        let i = choose|i: int| 0 <= i < values.len() && remaps(style, #[trigger] values[i], root);
        assert(maps_root(style, values[i], root));
    }
    if exists|i: int| 0 <= i < values.len() && maps_root(style, #[trigger] values[i], root) {
        let i = choose|i: int| 0 <= i < values.len() && maps_root(style, #[trigger] values[i], root);
        assert(remaps(style, values[i], root));
    }
}

/// What is made is tied to its worktree for precompiled headers, with every compiler, and for
/// everything that Microsoft's compiler makes; and for nothing else.
pub proof fn lemma_worktree_bound(family: CompilerFamily, mode: SourceMode)
    ensures
        worktree_bound(family, SourceMode::Header),
        worktree_bound(CompilerFamily::Msvc, mode),
        family != CompilerFamily::Msvc ==> !worktree_bound(family, SourceMode::Source),
{
}

// ── Effective arguments ─────────────────────────────────────────────────

/// Where remapping is asked for and there is a root, a C compiler is told, with each of the three
/// flags, to map the root to `.`, and so the working directory unless it is the root; but nothing is
/// added with a flag with which the user maps the directory.
pub proof fn lemma_effective_maps_for_c(
    style: PathStyle,
    args: Seq<Seq<char>>,
    family: CompilerFamily,
    cwd: Seq<char>,
    root: Seq<char>,
    env: Seq<(Seq<char>, Seq<char>)>,
    flag: Seq<char>,
)
    requires
        auto_remap(env),
        family == CompilerFamily::Clang || family == CompilerFamily::Gcc,
        flag == "-ffile-prefix-map"@ || flag == "-fmacro-prefix-map"@ || flag == "-fdebug-prefix-map"@,
    ensures
        ({
            let out = effective(style, args, family, cwd, Some(root), env);
            &&& !has_cc_mapping(style, args, flag, root) ==> out.contains(flag + "="@ + root + "=."@)
            &&& !has_cc_mapping(style, args, flag, cwd) && key_form(style, cwd) != key_form(style, root) ==> out.contains(
                flag + "="@ + cwd + "=."@,
            )
            &&& forall|i: int|
                0 <= i < args.len() ==> #[trigger] out[out.len() - args.len() + i] == args[i]
            &&& out.len() <= args.len() + 6
        }),
{
    let f = auto_flags();
    let out = effective(style, args, family, cwd, Some(root), env);
    let a = added_maps(style, args, f, root);
    let same = same_key(style, root, cwd);
    let b = if same {
        Seq::<Seq<char>>::empty()
    } else {
        added_maps(style, args, f, cwd)
    };
    assert(out == a + b + args);
    lemma_added_len(style, args, f, root);
    lemma_added_len(style, args, f, cwd);
    let k: int = if flag == "-ffile-prefix-map"@ {
        0
    } else if flag == "-fmacro-prefix-map"@ {
        1
    } else {
        2
    };
    assert(f[k] == flag);
    if !has_cc_mapping(style, args, flag, root) {
        lemma_added_maps(style, args, f, root, k);
        let i = a.index_of(flag + "="@ + root + "=."@);
        assert(out[i] == flag + "="@ + root + "=."@);
    }
    if !has_cc_mapping(style, args, flag, cwd) && !same {
        lemma_added_maps(style, args, f, cwd, k);
        let i = b.index_of(flag + "="@ + cwd + "=."@);
        assert(out[a.len() + i] == flag + "="@ + cwd + "=."@);
    }
}

/// A directory is mapped with a flag exactly where some argument is the flag with a mapping of a
/// path that is spelled as the directory is.
pub proof fn lemma_has_cc_mapping(style: PathStyle, args: Seq<Seq<char>>, k: int, dir: Seq<char>)
    requires
        0 <= k < cc_flags().len(),
    ensures
        has_cc_mapping(style, args, cc_flags()[k], dir) <==> exists|i: int, from: Seq<char>, to: Seq<char>|
            #![trigger args[i], mapping_text(from, to)]
            0 <= i < args.len() && no_equals(from) && args[i] == cc_flags()[k] + "="@ + mapping_text(from, to) && key_form(style, from)
                == key_form(style, dir),
{
    let flag = cc_flags()[k];
    if has_cc_mapping(style, args, flag, dir) {
        let i = choose|i: int| 0 <= i < args.len() && maps_dir(style, #[trigger] args[i], flag, dir);
        lemma_mapping_read(args[i], cc_flags());
        let (f, from, to) = cc_mapping(args[i])->0;
        assert(args[i] =~= flag + "="@ + mapping_text(from, to));
    }
    if exists|i: int, from: Seq<char>, to: Seq<char>|
        #![trigger args[i], mapping_text(from, to)]
        0 <= i < args.len() && no_equals(from) && args[i] == flag + "="@ + mapping_text(from, to) && key_form(style, from) == key_form(
            style,
            dir,
        ) {
        let (i, from, to) = choose|i: int, from: Seq<char>, to: Seq<char>|
            #![trigger args[i], mapping_text(from, to)]
            0 <= i < args.len() && no_equals(from) && args[i] == flag + "="@ + mapping_text(from, to) && key_form(style, from)
                == key_form(style, dir);
        lemma_cc_mapping_reads_back(k, from, to);
        assert(args[i] =~= flag + "="@ + from + "="@ + to);
        assert(maps_dir(style, args[i], flag, dir));
    }
}

/// No more is added than there are flags.
proof fn lemma_added_len(style: PathStyle, args: Seq<Seq<char>>, flags: Seq<Seq<char>>, dir: Seq<char>)
    ensures
        added_maps(style, args, flags, dir).len() <= flags.len(),
    decreases flags.len(),
{
    if flags.len() > 0 {
        lemma_added_len(style, args, flags.drop_last(), dir);
    }
}

/// Where remapping is asked for and there is a root that no mapping on the command line maps,
/// `rustc` is told to map it to `.`: in front, but behind a leading path of `rustc` itself. A mapping
/// that is there is left as it is; and other compilers are told nothing.
pub proof fn lemma_effective_maps_for_rust(
    style: PathStyle,
    args: Seq<Seq<char>>,
    family: CompilerFamily,
    cwd: Seq<char>,
    root: Seq<char>,
    env: Seq<(Seq<char>, Seq<char>)>,
)
    requires
        auto_remap(env),
    ensures
        ({
            let out = effective(style, args, family, cwd, Some(root), env);
            let at: int = if args.len() > 0 && stem_of(style, args[0]) == Some("rustc"@) {
                1
            } else {
                0
            };
            &&& family == CompilerFamily::Rustc && !args_remap(style, args, root) ==> {
                &&& out.len() == args.len() + 2
                &&& out[at] == "--remap-path-prefix"@
                &&& out[at + 1] == root + "=."@
                &&& forall|i: int| 0 <= i < at ==> #[trigger] out[i] == args[i]
                &&& forall|i: int| at <= i < args.len() ==> out[i + 2] == #[trigger] args[i]
            }
            &&& family == CompilerFamily::Rustc && args_remap(style, args, root) ==> out == args
            &&& family == CompilerFamily::Msvc || family == CompilerFamily::Other ==> out == args
        }),
{
}

// ── Contexts from command lines ─────────────────────────────────────────

/// The context of a source file on a C command line has that source, as seen from the working
/// directory, and all else from the command line, each where it belongs; after the command line's
/// system directories come the session's, none twice.
pub proof fn lemma_cc_context(style: PathStyle, parsed: ParsedArgs, source: Seq<char>, cwd: Seq<char>, system: Seq<Seq<char>>)
    ensures
        ({
            let ctx = cc_context(style, parsed, source, cwd, system);
            let own = path_views(parsed.include_search.system@);
            &&& ctx.source == clean(style, resolved(style, cwd, source))
            &&& ctx.user == path_views(parsed.include_search.user@)
            &&& own.is_prefix_of(ctx.system)
            &&& forall|d: Seq<char>| #[trigger] ctx.system.contains(d) <==> own.contains(d) || system.contains(d)
            &&& own.no_duplicates() ==> ctx.system.no_duplicates()
            &&& ctx.defines == views(parsed.defines@)
            &&& ctx.flags == views(parsed.flags@)
            &&& ctx.forced == path_views(parsed.force_includes@)
            &&& ctx.unknown == views(parsed.unknown_flags@)
        }),
{
    lemma_merged(path_views(parsed.include_search.system@), system);
}

/// Each command of a list is registered as the context that its own command line describes.
pub proof fn lemma_command_contexts(commands: Seq<ParsedArgs>, system: Seq<Seq<char>>, i: int)
    requires
        0 <= i < commands.len(),
    ensures
        ({
            let ctx = command_contexts(commands, system)[i];
            let own = path_views(commands[i].include_search.system@);
            &&& command_contexts(commands, system).len() == commands.len()
            &&& ctx.source == commands[i].source_file@
            &&& ctx.user == path_views(commands[i].include_search.user@)
            &&& own.is_prefix_of(ctx.system)
            &&& forall|d: Seq<char>| #[trigger] ctx.system.contains(d) <==> own.contains(d) || system.contains(d)
            &&& own.no_duplicates() ==> ctx.system.no_duplicates()
            &&& ctx.defines == views(commands[i].defines@)
            &&& ctx.flags == views(commands[i].flags@)
            &&& ctx.forced == path_views(commands[i].force_includes@)
            &&& ctx.unknown == views(commands[i].unknown_flags@)
        }),
{
    lemma_merged(path_views(commands[i].include_search.system@), system);
}

/// A Rust compilation is stored with its crate root alone.
pub proof fn lemma_bare_context(source: Seq<char>)
    ensures
        bare_context(source).source == source,
        bare_context(source).user.len() == 0,
        bare_context(source).system.len() == 0,
        bare_context(source).defines.len() == 0,
        bare_context(source).flags.len() == 0,
        bare_context(source).forced.len() == 0,
        bare_context(source).unknown.len() == 0,
{
}

} // verus!
