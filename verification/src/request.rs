//! The arguments a compiler is run with, and the fingerprint of a compiler request.

use vstd::prelude::*;
use crate::hash::{blake3_hex, field, fields, hash_bytes, put_field, put_text, ContentHash};
use crate::keys::{
    auto_remap, compiler_is_rustc_like, compiler_supports_ffile_prefix_map, env_view, has_cc_mapping,
    has_cc_prefix_map_for_old, normalize_cc_prefix_map_arg_for_key, normalize_path_for_request_key,
    normalize_request_path_value, normalize_rust_remap_path_prefix_value_for_key, path_remap_auto_enabled,
    request_cc_mapping, request_mapping, request_path, request_value, root_view, str_view, CompilerFamily,
};
use crate::order::{pair_order, sort_pairs, sorted_of};
use crate::path::{key_form, normalize_for_key, NormalizedPath, PathStyle};
use crate::remap::{
    args_remap, rust_args_have_remap_for_old, rustc_workspace_wrapper_shim_len, same_key, same_key_path, shim_len,
};
use crate::text::{
    concat2, concat3, copy_list, pair_views, same_text, split_once, split_once_at, starts_with, strip_prefix, views,
    without_prefix,
};
use vstd::utf8::encode_utf8;

verus! {

// ── Effective arguments ─────────────────────────────────────────────────

/// The flags that map a directory away: all three, since older compilers do not take the first
/// for the others.
pub open spec fn auto_flags() -> Seq<Seq<char>> {
    seq!["-ffile-prefix-map"@, "-fmacro-prefix-map"@, "-fdebug-prefix-map"@]
}

/// The argument that maps `dir` to `.` with `flag`.
pub open spec fn map_arg(flag: Seq<char>, dir: Seq<char>) -> Seq<char> {
    flag + "="@ + dir + "=."@
}

/// The arguments to add so that `dir` is mapped with each of `flags`: none where the arguments
/// map it with the flag already.
pub open spec fn added_maps(style: PathStyle, args: Seq<Seq<char>>, flags: Seq<Seq<char>>, dir: Seq<char>) -> Seq<Seq<char>>
    decreases flags.len(),
{
    if flags.len() == 0 {
        Seq::empty()
    } else {
        let before = added_maps(style, args, flags.drop_last(), dir);
        if has_cc_mapping(style, args, flags.last(), dir) {
            before
        } else {
            before.push(map_arg(flags.last(), dir))
        }
    }
}

/// The arguments that a compiler is run with. Where the client asks for remapping, the worktree
/// root, and for C the working directory too, are mapped to `.`. What is added goes in front, so
/// that the user's own mappings, which come later, win; and for Rust behind a leading `rustc`.
pub open spec fn effective(
    style: PathStyle,
    args: Seq<Seq<char>>,
    family: CompilerFamily,
    cwd: Seq<char>,
    root: Option<Seq<char>>,
    env: Seq<(Seq<char>, Seq<char>)>,
) -> Seq<Seq<char>> {
    if !auto_remap(env) || root is None {
        args
    } else if family == CompilerFamily::Rustc {
        if args_remap(style, args, root->0) {
            args
        } else {
            let shim = shim_len(style, args) as int;
            args.take(shim) + seq!["--remap-path-prefix"@, root->0 + "=."@] + args.skip(shim)
        }
    } else if family == CompilerFamily::Clang || family == CompilerFamily::Gcc {
        added_maps(style, args, auto_flags(), root->0) + (if same_key(style, root->0, cwd) {
            Seq::empty()
        } else {
            added_maps(style, args, auto_flags(), cwd)
        }) + args
    } else {
        args
    }
}

/// Appends the argument that maps `dir` with `flag`, unless the arguments map it already.
fn add_map(out: &mut Vec<String>, style: PathStyle, args: &[String], flag: &str, dir: &str)
    ensures
        views(final(out)@) == (if has_cc_mapping(style, views(args@), flag@, dir@) {
            views(old(out)@)
        } else {
            views(old(out)@).push(map_arg(flag@, dir@))
        }),
{
    if !has_cc_prefix_map_for_old(style, args, flag, dir) {
        let front = concat3(flag, "=", dir);
        let arg = concat2(front.as_str(), "=.");
        out.push(arg);
        assert(views(out@) =~= views(old(out)@).push(map_arg(flag@, dir@)));
    }
}

/// Appends the arguments that map `dir` away.
fn add_maps(out: &mut Vec<String>, style: PathStyle, args: &[String], dir: &str)
    ensures
        views(final(out)@) == views(old(out)@) + added_maps(style, views(args@), auto_flags(), dir@),
{
    let ghost start = views(out@);
    let ghost all = views(args@);
    let ghost f = auto_flags();
    add_map(out, style, args, "-ffile-prefix-map", dir);
    add_map(out, style, args, "-fmacro-prefix-map", dir);
    add_map(out, style, args, "-fdebug-prefix-map", dir);
    proof {
        reveal_with_fuel(added_maps, 4);
        assert(f.drop_last() =~= f.take(2));
        assert(f.take(2).drop_last() =~= f.take(1));
        assert(f.take(1).drop_last() =~= Seq::<Seq<char>>::empty());
        assert(views(out@) =~= start + added_maps(style, all, f, dir@));
    }
}

/// Appends copies of the arguments `from..to`.
fn add_copies(out: &mut Vec<String>, args: &[String], from: usize, to: usize)
    requires
        from <= to <= args@.len(),
    ensures
        views(final(out)@) == views(old(out)@) + views(args@).subrange(from as int, to as int),
{
    let ghost start = views(out@);
    let ghost all = views(args@);
    let mut i: usize = from;
    assert(views(out@) =~= start + all.subrange(from as int, from as int));
    while i < to
        invariant
            from <= i <= to <= args@.len(),
            all == views(args@),
            views(out@) == start + all.subrange(from as int, i as int),
        decreases to - i,
    {
        let ghost out0 = out@;
        out.push(args[i].clone());
        assert(views(out@) =~= views(out0).push(all[i as int]));
        assert(views(out@) =~= start + all.subrange(from as int, i + 1));
        i = i + 1;
    }
}

/// The arguments that a compiler is run with.
pub fn effective_compile_args(
    style: PathStyle,
    expanded_args: &[String],
    family: CompilerFamily,
    cwd: &str,
    worktree_root: Option<&NormalizedPath>,
    client_env: Option<&[(String, String)]>,
) -> (args: Vec<String>)
    ensures
        views(args@) == effective(
            style,
            views(expanded_args@),
            family,
            cwd@,
            root_view(worktree_root),
            env_view(client_env),
        ),
{
    if !path_remap_auto_enabled(client_env) {
        return copy_list(expanded_args);
    }
    let root = match worktree_root {
        Some(root) => root.as_str(),
        None => {
            return copy_list(expanded_args);
        },
    };
    let ghost all = views(expanded_args@);
    let n: usize = expanded_args.len();
    let mut args: Vec<String> = Vec::new();
    assert(views(args@) =~= Seq::<Seq<char>>::empty());
    if compiler_is_rustc_like(family) {
        if rust_args_have_remap_for_old(style, expanded_args, root) {
            return copy_list(expanded_args);
        }
        let shim = rustc_workspace_wrapper_shim_len(style, expanded_args);
        add_copies(&mut args, expanded_args, 0, shim);
        let ghost front = views(args@);
        args.push("--remap-path-prefix".to_owned());
        args.push(concat2(root, "=."));
        assert(views(args@) =~= front + seq!["--remap-path-prefix"@, root@ + "=."@]);
        add_copies(&mut args, expanded_args, shim, n);
        assert(views(args@) =~= all.take(shim as int) + seq!["--remap-path-prefix"@, root@ + "=."@] + all.skip(shim as int));
        return args;
    }
    if !compiler_supports_ffile_prefix_map(family) {
        return copy_list(expanded_args);
    }
    add_maps(&mut args, style, expanded_args, root);
    if !same_key_path(style, root, cwd) {
        add_maps(&mut args, style, expanded_args, cwd);
    }
    add_copies(&mut args, expanded_args, 0, n);
    assert(views(args@) =~= effective(style, all, family, cwd@, Some(root@), env_view(client_env)));
    args
}

// ── Arguments in request keys ───────────────────────────────────────────

/// How what follows an attached flag such as `-I` is spelled in a request key.
pub open spec fn request_attached(style: PathStyle, arg: Seq<char>, flag: Seq<char>, root: Seq<char>) -> Option<Seq<char>> {
    match without_prefix(arg, flag) {
        Some(rest) => if rest.len() == 0 {
            None
        } else {
            match request_value(style, rest, Some(root)) {
                Some(key) => Some(flag + key),
                None => None,
            }
        },
        None => None,
    }
}

/// How an argument with `=` is spelled in a request key: either side may be a path, the left
/// first.
pub open spec fn request_sides(style: PathStyle, arg: Seq<char>, root: Seq<char>) -> Option<Seq<char>> {
    match split_once_at(arg, '=') {
        Some((left, right)) => match request_value(style, left, Some(root)) {
            Some(key) => Some(key + "="@ + right),
            None => match request_value(style, right, Some(root)) {
                Some(key) => Some(left + "="@ + key),
                None => None,
            },
        },
        None => None,
    }
}

/// How an argument is spelled in a request key: the first reading of it that finds an absolute
/// path counts, and an argument without one stays as it is.
pub open spec fn request_arg(style: PathStyle, arg: Seq<char>, root: Option<Seq<char>>) -> Seq<char> {
    match root {
        None => arg,
        Some(r) => if request_cc_mapping(style, arg, root) is Some {
            request_cc_mapping(style, arg, root)->0
        } else if without_prefix(arg, "--remap-path-prefix="@) is Some {
            match request_mapping(style, without_prefix(arg, "--remap-path-prefix="@)->0, root) {
                Some(key) => "--remap-path-prefix="@ + key,
                None => arg,
            }
        } else if request_value(style, arg, root) is Some {
            request_value(style, arg, root)->0
        } else if request_attached(style, arg, "-I"@, r) is Some {
            request_attached(style, arg, "-I"@, r)->0
        } else if request_attached(style, arg, "-L"@, r) is Some {
            request_attached(style, arg, "-L"@, r)->0
        } else if request_sides(style, arg, r) is Some {
            request_sides(style, arg, r)->0
        } else {
            arg
        },
    }
}

/// How what follows an attached flag is spelled in a request key.
fn normalize_attached(style: PathStyle, arg: &str, flag: &str, root: &str) -> (key: Option<String>)
    ensures
        crate::text::opt_view(key) == request_attached(style, arg@, flag@, root@),
{
    match strip_prefix(arg, flag) {
        Some(rest) => {
            if rest.as_str().unicode_len() == 0 {
                return None;
            }
            match normalize_request_path_value(style, rest.as_str(), Some(root)) {
                Some(key) => Some(concat2(flag, key.as_str())),
                None => None,
            }
        },
        None => None,
    }
}

/// How an argument is spelled in a request key.
pub fn normalize_request_arg(style: PathStyle, arg: &str, key_root: Option<&str>) -> (key: String)
    ensures
        key@ == request_arg(style, arg@, str_view(key_root)),
{
    let root = match key_root {
        Some(root) => root,
        None => {
            return arg.to_owned();
        },
    };
    if let Some(key) = normalize_cc_prefix_map_arg_for_key(style, arg, Some(root)) {
        return key;
    }
    if let Some(value) = strip_prefix(arg, "--remap-path-prefix=") {
        return match normalize_rust_remap_path_prefix_value_for_key(style, value.as_str(), Some(root)) {
            Some(key) => concat2("--remap-path-prefix=", key.as_str()),
            None => arg.to_owned(),
        };
    }
    if let Some(key) = normalize_request_path_value(style, arg, Some(root)) {
        return key;
    }
    if let Some(key) = normalize_attached(style, arg, "-I", root) {
        return key;
    }
    if let Some(key) = normalize_attached(style, arg, "-L", root) {
        return key;
    }
    if let Some((left, right)) = split_once(arg, '=') {
        if let Some(key) = normalize_request_path_value(style, left.as_str(), Some(root)) {
            return concat3(key.as_str(), "=", right.as_str());
        }
        if let Some(key) = normalize_request_path_value(style, right.as_str(), Some(root)) {
            return concat3(left.as_str(), "=", key.as_str());
        }
    }
    arg.to_owned()
}

/// How a detached mapping is spelled in a request key: a malformed one stays as it is.
pub open spec fn request_detached(style: PathStyle, value: Seq<char>, root: Option<Seq<char>>) -> Seq<char> {
    match request_mapping(style, value, root) {
        Some(key) => key,
        None => value,
    }
}

/// How the arguments from position `i` on are spelled in a request key.
pub open spec fn request_args(style: PathStyle, args: Seq<Seq<char>>, i: int, root: Option<Seq<char>>) -> Seq<Seq<char>>
    decreases args.len() - i,
{
    if i < 0 || i >= args.len() {
        Seq::empty()
    } else if args[i] == "--remap-path-prefix"@ {
        if i + 1 < args.len() {
            seq![args[i], request_detached(style, args[i + 1], root)] + request_args(style, args, i + 2, root)
        } else {
            seq![args[i]]
        }
    } else {
        seq![request_arg(style, args[i], root)] + request_args(style, args, i + 1, root)
    }
}

/// How the arguments are spelled in a request key.
fn normalize_args(style: PathStyle, args: &[String], key_root: Option<&str>) -> (list: Vec<String>)
    ensures
        views(list@) == request_args(style, views(args@), 0, str_view(key_root)),
{
    let ghost all = views(args@);
    let ghost root = str_view(key_root);
    let ghost whole = request_args(style, all, 0, root);
    let mut list: Vec<String> = Vec::new();
    let mut i: usize = 0;
    assert(views(list@) + request_args(style, all, 0, root) =~= whole);
    while i < args.len()
        invariant
            i <= args@.len(),
            all == views(args@),
            root == str_view(key_root),
            views(list@) + request_args(style, all, i as int, root) == whole,
        decreases args@.len() - i,
    {
        let ghost list0 = views(list@);
        let arg = args[i].as_str();
        assert(all[i as int] == arg@);
        if same_text(arg, "--remap-path-prefix") {
            list.push(arg.to_owned());
            assert(views(list@) =~= list0.push(arg@));
            if args.len() - i > 1 {
                assert(all[i + 1] == args@[i + 1]@);
                let value = args[i + 1].as_str();
                let key = match normalize_rust_remap_path_prefix_value_for_key(style, value, key_root) {
                    Some(key) => key,
                    None => value.to_owned(),
                };
                list.push(key);
                proof {
                    assert(views(list@) =~= list0 + seq![arg@, key@]);
                    assert(views(list@) + request_args(style, all, i + 2, root) =~= list0 + (seq![arg@, key@]
                        + request_args(style, all, i + 2, root)));
                }
                i = i + 2;
            } else {
                proof {
                    assert(views(list@) =~= list0 + seq![arg@]);
                    assert(views(list@) + request_args(style, all, i + 1, root) =~= views(list@));
                }
                i = i + 1;
            }
        } else {
            let key = normalize_request_arg(style, arg, key_root);
            list.push(key);
            proof {
                assert(views(list@) =~= list0 + seq![key@]);
                assert(views(list@) + request_args(style, all, i + 1, root) =~= list0 + (seq![key@] + request_args(
                    style,
                    all,
                    i + 1,
                    root,
                )));
            }
            i = i + 1;
        }
    }
    assert(views(list@) + request_args(style, all, i as int, root) =~= views(list@));
    list
}

// ── The environment in request keys ─────────────────────────────────────

/// Whether a variable counts in request keys: those that cargo sets, but the ones that say where
/// things lie or how the build is run.
pub open spec fn counts(name: Seq<char>) -> bool {
    &&& "CARGO_"@.is_prefix_of(name)
    &&& name != "CARGO_MAKEFLAGS"@
    &&& name != "CARGO_INCREMENTAL"@
    &&& name != "CARGO_MANIFEST_DIR"@
    &&& name != "CARGO_MANIFEST_PATH"@
    &&& name != "CARGO_TARGET_DIR"@
}

/// The variables that count.
pub open spec fn counting(env: Seq<(Seq<char>, Seq<char>)>) -> Seq<(Seq<char>, Seq<char>)> {
    env.filter(|v: (Seq<char>, Seq<char>)| counts(v.0))
}

/// The variables that count, in order.
pub open spec fn key_vars(env: Seq<(Seq<char>, Seq<char>)>) -> Seq<(Seq<char>, Seq<char>)> {
    sorted_of(counting(env), pair_order())
}

/// Whether a variable counts in request keys.
fn name_counts(name: &str) -> (yes: bool)
    ensures
        yes == counts(name@),
{
    starts_with(name, "CARGO_") && !same_text(name, "CARGO_MAKEFLAGS") && !same_text(name, "CARGO_INCREMENTAL")
        && !same_text(name, "CARGO_MANIFEST_DIR") && !same_text(name, "CARGO_MANIFEST_PATH") && !same_text(
        name,
        "CARGO_TARGET_DIR",
    )
}

/// The variables that count in request keys, in order.
pub fn request_env_fingerprint_vars(client_env: Option<&[(String, String)]>) -> (vars: Vec<(String, String)>)
    ensures
        pair_views(vars@) == key_vars(env_view(client_env)),
{
    let mut vars: Vec<(String, String)> = Vec::new();
    let ghost pick = |v: (Seq<char>, Seq<char>)| counts(v.0);
    let ghost all = env_view(client_env);
    proof {
        reveal(Seq::filter);
        assert(pair_views(vars@) =~= all.take(0).filter(pick));
    }
    if let Some(list) = client_env {
        let mut i: usize = 0;
        while i < list.len()
            invariant
                i <= list@.len(),
                all == pair_views(list@),
                pick == (|v: (Seq<char>, Seq<char>)| counts(v.0)),
                pair_views(vars@) == all.take(i as int).filter(pick),
            decreases list@.len() - i,
        {
            reveal(Seq::filter);
            let ghost vars0 = vars@;
            assert(all.take(i + 1).drop_last() =~= all.take(i as int));
            assert(all.take(i + 1).last() == (list@[i as int].0@, list@[i as int].1@));
            if name_counts(list[i].0.as_str()) {
                vars.push((list[i].0.clone(), list[i].1.clone()));
                assert(pair_views(vars@) =~= pair_views(vars0).push((list@[i as int].0@, list@[i as int].1@)));
            }
            i = i + 1;
        }
    }
    assert(all.take(all.len() as int) =~= all);
    sort_pairs(vars)
}

// ── The fingerprint ─────────────────────────────────────────────────────

/// Variables, as they are hashed.
pub open spec fn vars_bytes(vars: Seq<(Seq<char>, Seq<char>)>) -> Seq<u8>
    decreases vars.len(),
{
    if vars.len() == 0 {
        Seq::empty()
    } else {
        vars_bytes(vars.drop_last()) + encode_utf8(vars.last().0) + encode_utf8("="@) + field(vars.last().1)
    }
}

/// The bytes that a request fingerprint is the hash of.
pub open spec fn request_bytes(
    style: PathStyle,
    compiler: Seq<char>,
    args: Seq<Seq<char>>,
    cwd: Seq<char>,
    root: Option<Seq<char>>,
    env: Seq<(Seq<char>, Seq<char>)>,
) -> Seq<u8> {
    field("zccache-request-v2"@) + field(key_form(style, compiler)) + fields(request_args(style, args, 0, root)) + field(
        request_path(style, cwd, root),
    ) + vars_bytes(key_vars(env))
}

/// Appends fields.
fn put_fields(out: &mut Vec<u8>, list: &[String])
    ensures
        final(out)@ == old(out)@ + fields(views(list@)),
{
    let ghost start = out@;
    let ghost all = views(list@);
    let mut i: usize = 0;
    assert(out@ =~= start + fields(all.take(0)));
    while i < list.len()
        invariant
            i <= list@.len(),
            all == views(list@),
            out@ == start + fields(all.take(i as int)),
        decreases list@.len() - i,
    {
        assert(all.take(i + 1).drop_last() =~= all.take(i as int));
        assert(all.take(i + 1).last() == list@[i as int]@);
        put_field(out, list[i].as_str());
        assert(out@ =~= start + fields(all.take(i + 1)));
        i = i + 1;
    }
    assert(all.take(all.len() as int) =~= all);
}

/// The bytes that a request fingerprint is the hash of.
pub fn request_preimage(
    style: PathStyle,
    compiler: &str,
    args: &[String],
    cwd: &str,
    key_root: Option<&str>,
    client_env: Option<&[(String, String)]>,
) -> (bytes: Vec<u8>)
    ensures
        bytes@ == request_bytes(style, compiler@, views(args@), cwd@, str_view(key_root), env_view(client_env)),
{
    let mut out: Vec<u8> = Vec::new();
    put_field(&mut out, "zccache-request-v2");
    let compiler_key = normalize_for_key(style, compiler);
    put_field(&mut out, compiler_key.as_str());
    let list = normalize_args(style, args, key_root);
    put_fields(&mut out, &list);
    let cwd_key = normalize_path_for_request_key(style, cwd, key_root);
    put_field(&mut out, cwd_key.as_str());
    let vars = request_env_fingerprint_vars(client_env);
    let ghost front = out@;
    let ghost all = pair_views(vars@);
    let mut i: usize = 0;
    assert(out@ =~= front + vars_bytes(all.take(0)));
    while i < vars.len()
        invariant
            i <= vars@.len(),
            all == pair_views(vars@),
            out@ == front + vars_bytes(all.take(i as int)),
        decreases vars@.len() - i,
    {
        assert(all.take(i + 1).drop_last() =~= all.take(i as int));
        assert(all.take(i + 1).last() == (vars@[i as int].0@, vars@[i as int].1@));
        put_text(&mut out, vars[i].0.as_str());
        put_text(&mut out, "=");
        put_field(&mut out, vars[i].1.as_str());
        assert(out@ =~= front + vars_bytes(all.take(i + 1)));
        i = i + 1;
    }
    proof {
        assert(all.take(all.len() as int) =~= all);
        assert(front =~= field("zccache-request-v2"@) + field(key_form(style, compiler@)) + fields(
            request_args(style, views(args@), 0, str_view(key_root)),
        ) + field(request_path(style, cwd@, str_view(key_root))));
    }
    out
}

/// The fingerprint of a compiler request: of the compiler, its arguments, the working directory
/// and the variables that count. The arguments are taken with response files already expanded.
pub fn request_fingerprint(
    style: PathStyle,
    compiler: &str,
    args: &[String],
    cwd: &str,
    key_root: Option<&str>,
    client_env: Option<&[(String, String)]>,
) -> (hash: ContentHash)
    ensures
        hash@ == blake3_hex(
            request_bytes(style, compiler@, views(args@), cwd@, str_view(key_root), env_view(client_env)),
        ),
{
    let bytes = request_preimage(style, compiler, args, cwd, key_root, client_env);
    hash_bytes(&bytes)
}

} // verus!
