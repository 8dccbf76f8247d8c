//! Request keys: what of a compiler request makes it the same request again.
//!
//! Paths below the worktree root count relative to it, so that two worktrees with the same
//! contents make the same requests.

use vstd::prelude::*;
use crate::path::{
    absolute, ancestors, ancestors_of, below, clean, is_absolute, is_under, join, joined_path, key_form, normalize_for_key,
    opt_path_view, resolve, resolved, strip_root, under, NormalizedPath, PathStyle,
};
use crate::probe::{found_kind, kind_at, FileKind, Probe};
use crate::remap::{rustc_request_key_root, rustc_root, same_key, same_key_path};
use crate::text::{
    concat3, lower_ascii, pair_views, same_ignoring_ascii_case, same_text, split_once, split_once_at, strip_prefix,
    views, without_prefix,
};

verus! {

/// The variable that asks for path remapping.
pub const PATH_REMAP_ENV: &'static str = "ZCCACHE_PATH_REMAP";

/// The variable that names the worktree root.
pub const WORKTREE_ROOT_ENV: &'static str = "ZCCACHE_WORKTREE_ROOT";

/// What stands for the worktree root in request keys.
pub const REQUEST_ROOT_MARKER: &'static str = "$ZCCACHE_WORKTREE_ROOT";

// ── The client's environment ────────────────────────────────────────────

/// The variables of an environment, where there is one.
pub open spec fn env_view(env: Option<&[(String, String)]>) -> Seq<(Seq<char>, Seq<char>)> {
    match env {
        Some(list) => pair_views(list@),
        None => Seq::empty(),
    }
}

/// The text of an optional text.
pub open spec fn str_view(text: Option<&str>) -> Option<Seq<char>> {
    match text {
        Some(t) => Some(t@),
        None => None,
    }
}

/// The text of an optional path.
pub open spec fn root_view(root: Option<&NormalizedPath>) -> Option<Seq<char>> {
    match root {
        Some(r) => Some(r@),
        None => None,
    }
}

/// The first value under `name`.
pub open spec fn first_value(env: Seq<(Seq<char>, Seq<char>)>, name: Seq<char>) -> Option<Seq<char>>
    decreases env.len(),
{
    if env.len() == 0 {
        None
    } else if env[0].0 == name {
        Some(env[0].1)
    } else {
        first_value(env.drop_first(), name)
    }
}

/// The value of a variable; an empty one counts as not set.
pub open spec fn env_value(env: Seq<(Seq<char>, Seq<char>)>, name: Seq<char>) -> Option<Seq<char>> {
    match first_value(env, name) {
        Some(v) => if v.len() == 0 {
            None
        } else {
            Some(v)
        },
        None => None,
    }
}

/// The value of a variable; an empty one counts as not set.
pub fn client_env_value<'a>(client_env: Option<&'a [(String, String)]>, name: &str) -> (value: Option<&'a str>)
    ensures
        str_view(value) == env_value(env_view(client_env), name@),
{
    let list = match client_env {
        Some(list) => list,
        None => {
            return None;
        },
    };
    let ghost all = pair_views(list@);
    let mut i: usize = 0;
    assert(all.skip(0) =~= all);
    while i < list.len()
        invariant
            i <= list@.len(),
            all == pair_views(list@),
            all == env_view(client_env),
            first_value(all, name@) == first_value(all.skip(i as int), name@),
        decreases list@.len() - i,
    {
        assert(all.skip(i as int)[0] == (list@[i as int].0@, list@[i as int].1@));
        if same_text(list[i].0.as_str(), name) {
            let value = list[i].1.as_str();
            if value.unicode_len() == 0 {
                return None;
            }
            return Some(value);
        }
        assert(all.skip(i as int).drop_first() =~= all.skip(i + 1));
        i = i + 1;
    }
    None
}

/// Whether the client asks for path remapping: the variable says `auto`, in any case.
pub open spec fn auto_remap(env: Seq<(Seq<char>, Seq<char>)>) -> bool {
    match env_value(env, PATH_REMAP_ENV@) {
        Some(v) => lower_ascii(v) == lower_ascii("auto"@),
        None => false,
    }
}

/// Whether the client asks for path remapping.
pub fn path_remap_auto_enabled(client_env: Option<&[(String, String)]>) -> (yes: bool)
    ensures
        yes == auto_remap(env_view(client_env)),
{
    match client_env_value(client_env, PATH_REMAP_ENV) {
        Some(value) => same_ignoring_ascii_case(value, "auto"),
        None => false,
    }
}

/// The tag of the remap state that diagnostics show: `auto_no_git` tells a request for remapping
/// without a worktree apart from no request.
pub fn diag_path_remap_state(client_env: Option<&[(String, String)]>, worktree_root_resolved: bool) -> (tag: &'static str)
    ensures
        tag@ == (if !auto_remap(env_view(client_env)) {
            "off"@
        } else if worktree_root_resolved {
            "auto"@
        } else {
            "auto_no_git"@
        }),
{
    if path_remap_auto_enabled(client_env) {
        if worktree_root_resolved {
            "auto"
        } else {
            "auto_no_git"
        }
    } else {
        "off"
    }
}

// ── The worktree root ───────────────────────────────────────────────────

/// The root that the client configured, as seen from its working directory.
pub open spec fn configured(style: PathStyle, cwd: Seq<char>, env: Seq<(Seq<char>, Seq<char>)>) -> Option<Seq<char>> {
    match env_value(env, WORKTREE_ROOT_ENV@) {
        Some(v) => Some(resolved(style, cwd, v)),
        None => None,
    }
}

/// The root that the client configured, as seen from its working directory.
pub fn configured_worktree_root(style: PathStyle, cwd: &str, client_env: Option<&[(String, String)]>) -> (root: Option<
    String,
>)
    ensures
        crate::text::opt_view(root) == configured(style, cwd@, env_view(client_env)),
{
    match client_env_value(client_env, WORKTREE_ROOT_ENV) {
        Some(value) => Some(resolve(style, cwd, value)),
        None => None,
    }
}

/// Where the marker of a worktree would stand below `dir`.
pub open spec fn dot_git(style: PathStyle, dir: Seq<char>) -> Seq<char> {
    joined_path(style, dir, ".git"@)
}

/// Whether `dir` is the top of a worktree: a directory or a file marks it.
pub open spec fn is_worktree(style: PathStyle, probes: Seq<Probe>, dir: Seq<char>) -> bool {
    kind_at(probes, dot_git(style, dir)) == FileKind::Directory || kind_at(probes, dot_git(style, dir)) == FileKind::File
}

/// The first of `dirs` that is the top of a worktree.
pub open spec fn first_worktree(style: PathStyle, probes: Seq<Probe>, dirs: Seq<Seq<char>>) -> Option<Seq<char>>
    decreases dirs.len(),
{
    if dirs.len() == 0 {
        None
    } else if is_worktree(style, probes, dirs[0]) {
        Some(dirs[0])
    } else {
        first_worktree(style, probes, dirs.drop_first())
    }
}

/// The innermost worktree around `cwd`.
pub open spec fn git_root(style: PathStyle, cwd: Seq<char>, probes: Seq<Probe>) -> Option<Seq<char>> {
    match first_worktree(style, probes, ancestors_of(style, cwd)) {
        Some(dir) => Some(clean(style, dir)),
        None => None,
    }
}

/// The paths to look at before a worktree root can be resolved.
pub open spec fn root_probes(style: PathStyle, cwd: Seq<char>, env: Seq<(Seq<char>, Seq<char>)>) -> Seq<Seq<char>> {
    let dirs = ancestors_of(style, cwd);
    let marks = Seq::new(dirs.len(), |i: int| dot_git(style, dirs[i]));
    match configured(style, cwd, env) {
        Some(root) => marks.push(root),
        None => marks,
    }
}

/// The paths to look at before a worktree root can be resolved.
pub fn worktree_probes(style: PathStyle, cwd: &str, client_env: Option<&[(String, String)]>) -> (paths: Vec<String>)
    ensures
        views(paths@) == root_probes(style, cwd@, env_view(client_env)),
{
    let dirs = ancestors(style, cwd);
    let ghost names = ancestors_of(style, cwd@);
    let mut paths: Vec<String> = Vec::new();
    let mut i: usize = 0;
    while i < dirs.len()
        invariant
            i <= dirs@.len(),
            names == views(dirs@),
            paths@.len() == i,
            forall|j: int| 0 <= j < i ==> (#[trigger] paths@[j])@ == dot_git(style, names[j]),
        decreases dirs@.len() - i,
    {
        paths.push(join(style, dirs[i].as_str(), ".git"));
        i = i + 1;
    }
    let ghost marks = Seq::new(names.len(), |i: int| dot_git(style, names[i]));
    assert(views(paths@) =~= marks);
    if let Some(root) = configured_worktree_root(style, cwd, client_env) {
        let ghost paths0 = paths@;
        paths.push(root);
        assert(views(paths@) =~= views(paths0).push(root@));
    }
    paths
}

/// The innermost worktree around `cwd`.
pub fn find_git_root(style: PathStyle, cwd: &str, probes: &[Probe]) -> (root: Option<NormalizedPath>)
    ensures
        opt_path_view(root) == git_root(style, cwd@, probes@),
{
    let dirs = ancestors(style, cwd);
    let ghost names = ancestors_of(style, cwd@);
    let mut i: usize = 0;
    assert(names.skip(0) =~= names);
    while i < dirs.len()
        invariant
            i <= dirs@.len(),
            names == views(dirs@),
            first_worktree(style, probes@, names) == first_worktree(style, probes@, names.skip(i as int)),
            names == ancestors_of(style, cwd@),
        decreases dirs@.len() - i,
    {
        let mark = join(style, dirs[i].as_str(), ".git");
        let kind = found_kind(probes, mark.as_str());
        assert(names.skip(i as int)[0] == dirs@[i as int]@);
        if kind == FileKind::Directory || kind == FileKind::File {
            return Some(NormalizedPath::new(style, dirs[i].as_str()));
        }
        assert(names.skip(i as int).drop_first() =~= names.skip(i + 1));
        i = i + 1;
    }
    None
}

/// The worktree root: the configured one where it is a directory, else the innermost worktree.
pub open spec fn worktree(
    style: PathStyle,
    cwd: Seq<char>,
    env: Seq<(Seq<char>, Seq<char>)>,
    probes: Seq<Probe>,
) -> Option<Seq<char>> {
    match configured(style, cwd, env) {
        Some(root) => if kind_at(probes, root) == FileKind::Directory {
            Some(clean(style, root))
        } else {
            git_root(style, cwd, probes)
        },
        None => git_root(style, cwd, probes),
    }
}

/// The worktree root: the configured one where it is a directory, else the innermost worktree.
pub fn resolve_worktree_root(style: PathStyle, cwd: &str, client_env: Option<&[(String, String)]>, probes: &[Probe]) -> (root: Option<
    NormalizedPath,
>)
    ensures
        opt_path_view(root) == worktree(style, cwd@, env_view(client_env), probes@),
{
    if let Some(root) = configured_worktree_root(style, cwd, client_env) {
        if found_kind(probes, root.as_str()) == FileKind::Directory {
            return Some(NormalizedPath::new(style, root.as_str()));
        }
    }
    find_git_root(style, cwd, probes)
}

/// What a session found out about its worktree.
#[derive(Debug)]
pub struct SessionRoot {
    /// The worktree root; `None` where there is no worktree.
    pub root: Option<NormalizedPath>,
    /// The directory that the session was opened in.
    pub working_dir: NormalizedPath,
}

/// What the session's finding says of a compilation in `cwd`, where it says something: the root
/// holds for everything below it, and "no worktree" for everything below the session's directory
/// unless the client asks for remapping.
pub open spec fn remembered_root(
    style: PathStyle,
    session: Option<&SessionRoot>,
    cwd: Seq<char>,
    env: Seq<(Seq<char>, Seq<char>)>,
) -> Option<Option<Seq<char>>> {
    match session {
        Some(s) => match s.root {
            Some(root) => if under(style, cwd, root@) {
                Some(Some(root@))
            } else {
                None
            },
            None => if under(style, cwd, s.working_dir@) && !auto_remap(env) {
                Some(None)
            } else {
                None
            },
        },
        None => None,
    }
}

/// The worktree root of a compilation. A configured root goes first, then what the session knows,
/// then the file system; and where the client asks for remapping and there is no worktree, the
/// working directory itself, so that the output does not show it.
pub open spec fn compile_root(
    style: PathStyle,
    session: Option<&SessionRoot>,
    cwd: Seq<char>,
    env: Seq<(Seq<char>, Seq<char>)>,
    probes: Seq<Probe>,
) -> Option<Seq<char>> {
    if env_value(env, WORKTREE_ROOT_ENV@) is Some {
        worktree(style, cwd, env, probes)
    } else {
        match remembered_root(style, session, clean(style, cwd), env) {
            Some(known) => known,
            None => match worktree(style, cwd, env, probes) {
                Some(root) => Some(root),
                None => if auto_remap(env) {
                    Some(clean(style, cwd))
                } else {
                    None
                },
            },
        }
    }
}

/// The worktree root of a compilation.
pub fn compile_worktree_root(
    style: PathStyle,
    session: Option<&SessionRoot>,
    cwd: &str,
    client_env: Option<&[(String, String)]>,
    probes: &[Probe],
) -> (root: Option<NormalizedPath>)
    ensures
        opt_path_view(root) == compile_root(style, session, cwd@, env_view(client_env), probes@),
{
    if client_env_value(client_env, WORKTREE_ROOT_ENV).is_some() {
        return resolve_worktree_root(style, cwd, client_env, probes);
    }
    let here = NormalizedPath::new(style, cwd);
    let auto = path_remap_auto_enabled(client_env);
    if let Some(known) = session {
        match &known.root {
            Some(root) => {
                if is_under(style, here.as_str(), root.as_str()) {
                    return Some(root.clone());
                }
            },
            None => {
                if is_under(style, here.as_str(), known.working_dir.as_str()) && !auto {
                    return None;
                }
            },
        }
    }
    if let Some(root) = resolve_worktree_root(style, cwd, client_env, probes) {
        return Some(root);
    }
    if auto {
        return Some(here);
    }
    None
}

/// Where the client asks for remapping and configures no root, a compilation always has one.
pub proof fn lemma_auto_remap_has_root(
    style: PathStyle,
    session: Option<&SessionRoot>,
    cwd: Seq<char>,
    env: Seq<(Seq<char>, Seq<char>)>,
    probes: Seq<Probe>,
)
    requires
        auto_remap(env),
        env_value(env, WORKTREE_ROOT_ENV@) is None,
    ensures
        compile_root(style, session, cwd, env, probes) is Some,
{
}

// ── Paths in request keys ───────────────────────────────────────────────

/// How a path is spelled in a request key: behind the marker where it lies below the key root.
pub open spec fn request_path(style: PathStyle, path: Seq<char>, root: Option<Seq<char>>) -> Seq<char> {
    match root {
        Some(r) => match below(style, path, r) {
            Some(rest) => if key_form(style, rest).len() == 0 {
                REQUEST_ROOT_MARKER@
            } else {
                REQUEST_ROOT_MARKER@ + "/"@ + key_form(style, rest)
            },
            None => key_form(style, path),
        },
        None => key_form(style, path),
    }
}

/// How a path is spelled in a request key.
pub fn normalize_path_for_request_key(style: PathStyle, path: &str, key_root: Option<&str>) -> (key: String)
    ensures
        key@ == request_path(style, path@, str_view(key_root)),
{
    if let Some(root) = key_root {
        if let Some(rest) = strip_root(style, path, root) {
            let relative = normalize_for_key(style, rest.as_str());
            if relative.as_str().unicode_len() == 0 {
                return REQUEST_ROOT_MARKER.to_owned();
            }
            return concat3(REQUEST_ROOT_MARKER, "/", relative.as_str());
        }
    }
    normalize_for_key(style, path)
}

/// How a value that may be a path is spelled in a request key: only absolute paths are.
pub open spec fn request_value(style: PathStyle, value: Seq<char>, root: Option<Seq<char>>) -> Option<Seq<char>> {
    if absolute(style, value) {
        Some(request_path(style, value, root))
    } else {
        None
    }
}

/// How a value that may be a path is spelled in a request key.
pub fn normalize_request_path_value(style: PathStyle, value: &str, key_root: Option<&str>) -> (key: Option<String>)
    ensures
        crate::text::opt_view(key) == request_value(style, value@, str_view(key_root)),
{
    if is_absolute(style, value) {
        Some(normalize_path_for_request_key(style, value, key_root))
    } else {
        None
    }
}

/// How a mapping `old=new` is spelled in a request key.
pub open spec fn request_mapping(style: PathStyle, value: Seq<char>, root: Option<Seq<char>>) -> Option<Seq<char>> {
    match split_once_at(value, '=') {
        Some((from, to)) => match request_value(style, from, root) {
            Some(key) => Some(key + "="@ + to),
            None => None,
        },
        None => None,
    }
}

/// How a mapping `old=new` is spelled in a request key.
pub fn normalize_rust_remap_path_prefix_value_for_key(style: PathStyle, value: &str, key_root: Option<&str>) -> (key: Option<
    String,
>)
    ensures
        crate::text::opt_view(key) == request_mapping(style, value@, str_view(key_root)),
{
    match split_once(value, '=') {
        Some((from, to)) => match normalize_request_path_value(style, from.as_str(), key_root) {
            Some(key) => Some(concat3(key.as_str(), "=", to.as_str())),
            None => None,
        },
        None => None,
    }
}

/// The mapping that `arg` gives with `flag`: its two sides.
pub open spec fn flag_mapping(arg: Seq<char>, flag: Seq<char>) -> Option<(Seq<char>, Seq<char>)> {
    match without_prefix(arg, flag) {
        Some(rest) => match without_prefix(rest, "="@) {
            Some(mapping) => split_once_at(mapping, '='),
            None => None,
        },
        None => None,
    }
}

/// The flags with which C compilers take mappings.
pub open spec fn cc_flags() -> Seq<Seq<char>> {
    seq![
        "-ffile-prefix-map"@,
        "-fmacro-prefix-map"@,
        "-fdebug-prefix-map"@,
        "-fcoverage-prefix-map"@,
        "-fprofile-prefix-map"@,
    ]
}

/// The first of `flags` with which `arg` gives a mapping, and the two sides.
pub open spec fn mapping_with(arg: Seq<char>, flags: Seq<Seq<char>>) -> Option<(Seq<char>, Seq<char>, Seq<char>)>
    decreases flags.len(),
{
    if flags.len() == 0 {
        None
    } else {
        match flag_mapping(arg, flags[0]) {
            Some((from, to)) => Some((flags[0], from, to)),
            None => mapping_with(arg, flags.drop_first()),
        }
    }
}

/// The mapping that an argument of a C compiler gives: the flag and the two sides.
pub open spec fn cc_mapping(arg: Seq<char>) -> Option<(Seq<char>, Seq<char>, Seq<char>)> {
    mapping_with(arg, cc_flags())
}

/// A mapping's texts.
pub open spec fn mapping_view(mapping: Option<(&'static str, String, String)>) -> Option<(Seq<char>, Seq<char>, Seq<char>)> {
    match mapping {
        Some(m) => Some((m.0@, m.1@, m.2@)),
        None => None,
    }
}

/// The mapping that `arg` gives with `flag`.
fn split_flag_mapping(arg: &str, flag: &str) -> (sides: Option<(String, String)>)
    ensures
        crate::text::opt_pair_view(sides) == flag_mapping(arg@, flag@),
{
    match strip_prefix(arg, flag) {
        Some(rest) => match strip_prefix(rest.as_str(), "=") {
            Some(mapping) => split_once(mapping.as_str(), '='),
            None => None,
        },
        None => None,
    }
}

/// The mapping that an argument of a C compiler gives: the flag and the two sides.
pub fn split_cc_prefix_map_arg(arg: &str) -> (mapping: Option<(&'static str, String, String)>)
    ensures
        mapping_view(mapping) == cc_mapping(arg@),
{
    proof {
        reveal_with_fuel(mapping_with, 6);
        let f = cc_flags();
        assert(f.drop_first() =~= f.skip(1));
        assert(f.skip(1).drop_first() =~= f.skip(2));
        assert(f.skip(2).drop_first() =~= f.skip(3));
        assert(f.skip(3).drop_first() =~= f.skip(4));
        assert(f.skip(4).drop_first() =~= Seq::<Seq<char>>::empty());
    }
    if let Some((from, to)) = split_flag_mapping(arg, "-ffile-prefix-map") {
        return Some(("-ffile-prefix-map", from, to));
    }
    if let Some((from, to)) = split_flag_mapping(arg, "-fmacro-prefix-map") {
        return Some(("-fmacro-prefix-map", from, to));
    }
    if let Some((from, to)) = split_flag_mapping(arg, "-fdebug-prefix-map") {
        return Some(("-fdebug-prefix-map", from, to));
    }
    if let Some((from, to)) = split_flag_mapping(arg, "-fcoverage-prefix-map") {
        return Some(("-fcoverage-prefix-map", from, to));
    }
    if let Some((from, to)) = split_flag_mapping(arg, "-fprofile-prefix-map") {
        return Some(("-fprofile-prefix-map", from, to));
    }
    None
}

/// How a mapping argument of a C compiler is spelled in a request key.
pub open spec fn request_cc_mapping(style: PathStyle, arg: Seq<char>, root: Option<Seq<char>>) -> Option<Seq<char>> {
    match cc_mapping(arg) {
        Some((flag, from, to)) => match request_value(style, from, root) {
            Some(key) => Some(flag + "="@ + key + "="@ + to),
            None => None,
        },
        None => None,
    }
}

/// How a mapping argument of a C compiler is spelled in a request key.
pub fn normalize_cc_prefix_map_arg_for_key(style: PathStyle, arg: &str, key_root: Option<&str>) -> (key: Option<String>)
    ensures
        crate::text::opt_view(key) == request_cc_mapping(style, arg@, str_view(key_root)),
{
    match split_cc_prefix_map_arg(arg) {
        Some((flag, from, to)) => match normalize_request_path_value(style, from.as_str(), key_root) {
            Some(key) => {
                let front = concat3(flag, "=", key.as_str());
                Some(concat3(front.as_str(), "=", to.as_str()))
            },
            None => None,
        },
        None => None,
    }
}

/// Whether the arguments map the directory `old` with `flag` already.
pub open spec fn has_cc_mapping(style: PathStyle, args: Seq<Seq<char>>, flag: Seq<char>, dir: Seq<char>) -> bool {
    exists|i: int| 0 <= i < args.len() && maps_dir(style, #[trigger] args[i], flag, dir)
}

/// Whether an argument maps the directory `dir` with `flag`.
pub open spec fn maps_dir(style: PathStyle, arg: Seq<char>, flag: Seq<char>, dir: Seq<char>) -> bool {
    match cc_mapping(arg) {
        Some((f, from, _)) => f == flag && same_key(style, from, dir),
        None => false,
    }
}

/// Whether the arguments map the directory `old` with `target_flag` already.
pub fn has_cc_prefix_map_for_old(style: PathStyle, args: &[String], target_flag: &str, old_dir: &str) -> (yes: bool)
    ensures
        yes == has_cc_mapping(style, views(args@), target_flag@, old_dir@),
{
    let mut i: usize = 0;
    while i < args.len()
        invariant
            i <= args@.len(),
            forall|j: int| 0 <= j < i ==> !maps_dir(style, #[trigger] views(args@)[j], target_flag@, old_dir@),
        decreases args@.len() - i,
    {
        assert(views(args@)[i as int] == args@[i as int]@);
        if let Some((flag, from, _)) = split_cc_prefix_map_arg(args[i].as_str()) {
            if same_text(flag, target_flag) && same_key_path(style, from.as_str(), old_dir) {
                assert(maps_dir(style, views(args@)[i as int], target_flag@, old_dir@));
                return true;
            }
        }
        i = i + 1;
    }
    false
}

// ── Compilers ───────────────────────────────────────────────────────────

/// The kinds of compilers.
#[derive(Clone, Copy, Debug, PartialEq, Eq, Structural)]
pub enum CompilerFamily {
    /// GCC.
    Gcc,
    /// Clang.
    Clang,
    /// Microsoft's compiler.
    Msvc,
    /// `rustc`, and drivers that stand in for it.
    Rustc,
    /// Any other.
    Other,
}

/// What is compiled.
#[derive(Clone, Copy, Debug, PartialEq, Eq, Structural)]
pub enum SourceMode {
    /// A source file.
    Source,
    /// A header, into a precompiled one.
    Header,
}

/// Whether the compiler takes `-ffile-prefix-map` and its siblings.
pub fn compiler_supports_ffile_prefix_map(family: CompilerFamily) -> (yes: bool)
    ensures
        yes == (family == CompilerFamily::Clang || family == CompilerFamily::Gcc),
{
    match family {
        CompilerFamily::Clang => true,
        CompilerFamily::Gcc => true,
        CompilerFamily::Msvc => false,
        CompilerFamily::Rustc => false,
        CompilerFamily::Other => false,
    }
}

/// Whether the compiler is `rustc` or stands in for it.
pub fn compiler_is_rustc_like(family: CompilerFamily) -> (yes: bool)
    ensures
        yes == (family == CompilerFamily::Rustc),
{
    family == CompilerFamily::Rustc
}

/// Whether what is made can be used in no other worktree.
pub open spec fn worktree_bound(family: CompilerFamily, source_mode: SourceMode) -> bool {
    family == CompilerFamily::Msvc || source_mode == SourceMode::Header
}

/// Whether what is made can be used in no other worktree: a precompiled header keeps the paths of
/// its headers, and Microsoft's compiler cannot be kept from writing absolute paths.
#[must_use]
pub fn requires_worktree_in_key(family: CompilerFamily, source_mode: SourceMode) -> (yes: bool)
    ensures
        yes == worktree_bound(family, source_mode),
{
    family == CompilerFamily::Msvc || source_mode == SourceMode::Header
}

/// The root that a request key is relative to.
pub open spec fn key_root_of(
    style: PathStyle,
    family: CompilerFamily,
    args: Seq<Seq<char>>,
    root: Option<Seq<char>>,
) -> Option<Seq<char>> {
    if family == CompilerFamily::Rustc {
        rustc_root(style, args, root)
    } else {
        root
    }
}

/// The root that a request key is relative to: the worktree root, but for Rust only where the
/// command line maps it.
pub fn request_key_root(
    style: PathStyle,
    family: CompilerFamily,
    args: &[String],
    worktree_root: Option<&NormalizedPath>,
) -> (root: Option<NormalizedPath>)
    ensures
        opt_path_view(root) == key_root_of(style, family, views(args@), root_view(worktree_root)),
{
    if compiler_is_rustc_like(family) {
        rustc_request_key_root(style, args, worktree_root)
    } else {
        match worktree_root {
            Some(root) => Some(root.clone()),
            None => None,
        }
    }
}

} // verus!
