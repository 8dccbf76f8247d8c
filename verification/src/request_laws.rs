//! What holds of compiler requests and their fingerprints.

use vstd::prelude::*;
use crate::keys::{
    auto_remap, cc_flags, cc_mapping, flag_mapping, has_cc_mapping, mapping_with, maps_dir, request_mapping,
    request_path, request_value, CompilerFamily,
};
use crate::order::{lemma_pair_order, lemma_sorted_forgets_order, pair_order};
use crate::path::{
    absolute, alike, below, lemma_windows_keys_fold, prefix_len, two_seps, verbatim, PathStyle,
};
use crate::remap::{args_remap, remap_values, remaps, same_key, shim_len};
use crate::request::{
    added_maps, auto_flags, counting, counts, effective, map_arg, request_arg, request_args, request_bytes, request_detached,
};
use crate::text::{lemma_first_at, lower_ascii, split_once_at, without_prefix};

verus! {

// ── Reading arguments ───────────────────────────────────────────────────

/// Taking a prefix away undoes putting it in front.
pub(crate) proof fn lemma_prefix(front: Seq<char>, rest: Seq<char>)
    ensures
        without_prefix(front + rest, front) == Some(rest),
{
    assert((front + rest).take(front.len() as int) =~= front);
    assert((front + rest).skip(front.len() as int) =~= rest);
}

/// Whether `s` holds no `=`.
pub open spec fn no_equals(s: Seq<char>) -> bool {
    forall|i: int| 0 <= i < s.len() ==> s[i] != '='
}

/// The first `=` is where it was put.
pub(crate) proof fn lemma_split_equals(a: Seq<char>, b: Seq<char>)
    requires
        no_equals(a),
    ensures
        split_once_at(a + "="@ + b, '=') == Some((a, b)),
{
    reveal_strlit("=");
    let s = a + "="@ + b;
    assert(s[a.len() as int] == '=');
    assert forall|j: int| 0 <= j < a.len() implies s[j] != '=' by {
        assert(s[j] == a[j]);
    }
    lemma_first_at(s, '=', a.len() as int);
    assert(s.take(a.len() as int) =~= a);
    assert(s.skip(a.len() as int + 1) =~= b);
}

/// An argument that does not begin with `-f` is no mapping of a C compiler.
proof fn lemma_no_cc_mapping(x: Seq<char>)
    requires
        !(x.len() >= 2 && x[0] == '-' && x[1] == 'f'),
    ensures
        cc_mapping(x) is None,
{
    lemma_flag_heads();
    let f = cc_flags();
    assert forall|k: int| 0 <= k < f.len() implies flag_mapping(x, #[trigger] f[k]) is None by {
        if f[k].is_prefix_of(x) {
            assert(x.take(f[k].len() as int)[0] == x[0]);
            assert(x.take(f[k].len() as int)[1] == x[1]);
        }
    }
    lemma_no_flag(x, f);
}

/// Where no flag gives a mapping, there is none.
proof fn lemma_no_flag(x: Seq<char>, flags: Seq<Seq<char>>)
    requires
        forall|k: int| 0 <= k < flags.len() ==> flag_mapping(x, #[trigger] flags[k]) is None,
    ensures
        mapping_with(x, flags) is None,
    decreases flags.len(),
{
    if flags.len() > 0 {
        let rest = flags.drop_first();
        assert forall|k: int| 0 <= k < rest.len() implies flag_mapping(x, #[trigger] rest[k]) is None by {
            assert(rest[k] == flags[k + 1]);
        }
        assert(flag_mapping(x, flags[0]) is None);
        lemma_no_flag(x, rest);
    }
}

/// How the mapping flags begin: all alike, and then each in its own way.
proof fn lemma_flag_heads()
    ensures
        cc_flags().len() == 5,
        forall|k: int| 0 <= k < 5 ==> (#[trigger] cc_flags()[k]).len() >= 3 && cc_flags()[k][0] == '-' && cc_flags()[k][1] == 'f',
        forall|j: int, k: int|
            #![trigger cc_flags()[j], cc_flags()[k]]
            0 <= j < 5 && 0 <= k < 5 && j != k ==> cc_flags()[j][2] != cc_flags()[k][2],
        forall|k: int| 0 <= k < 5 ==> no_equals(#[trigger] cc_flags()[k]),
{
    reveal_strlit("-ffile-prefix-map");
    reveal_strlit("-fmacro-prefix-map");
    reveal_strlit("-fdebug-prefix-map");
    reveal_strlit("-fcoverage-prefix-map");
    reveal_strlit("-fprofile-prefix-map");
    let f = cc_flags();
    assert(f[0] == "-ffile-prefix-map"@ && f[1] == "-fmacro-prefix-map"@ && f[2] == "-fdebug-prefix-map"@ && f[3]
        == "-fcoverage-prefix-map"@ && f[4] == "-fprofile-prefix-map"@);
}

/// The first flag that gives a mapping is the one found.
proof fn lemma_found_flag(x: Seq<char>, flags: Seq<Seq<char>>, k: int)
    requires
        0 <= k < flags.len(),
        flag_mapping(x, flags[k]) is Some,
        forall|j: int| 0 <= j < k ==> flag_mapping(x, #[trigger] flags[j]) is None,
    ensures
        match flag_mapping(x, flags[k]) {
            Some((from, to)) => mapping_with(x, flags) == Some((flags[k], from, to)),
            None => false,
        },
    decreases flags.len(),
{
    if k > 0 {
        let rest = flags.drop_first();
        assert(flag_mapping(x, flags[0]) is None);
        assert(rest[k - 1] == flags[k]);
        assert forall|j: int| 0 <= j < k - 1 implies flag_mapping(x, #[trigger] rest[j]) is None by {
            assert(rest[j] == flags[j + 1]);
        }
        lemma_found_flag(x, rest, k - 1);
    }
}

/// A mapping argument is read as it was written.
pub proof fn lemma_cc_mapping_reads_back(k: int, from: Seq<char>, to: Seq<char>)
    requires
        0 <= k < cc_flags().len(),
        no_equals(from),
    ensures
        cc_mapping(cc_flags()[k] + "="@ + from + "="@ + to) == Some((cc_flags()[k], from, to)),
{
    lemma_flag_heads();
    let f = cc_flags();
    let x = f[k] + "="@ + from + "="@ + to;
    assert(x =~= f[k] + ("="@ + (from + "="@ + to)));
    lemma_prefix(f[k], "="@ + (from + "="@ + to));
    lemma_prefix("="@, from + "="@ + to);
    lemma_split_equals(from, to);
    assert(flag_mapping(x, f[k]) == Some((from, to)));
    assert forall|j: int| 0 <= j < k implies flag_mapping(x, #[trigger] f[j]) is None by {
        if f[j].is_prefix_of(x) {
            assert(x.take(f[j].len() as int)[2] == x[2]);
            assert(x[2] == f[k][2]);
            assert(f[j][2] != f[k][2]);
        }
    }
    lemma_found_flag(x, f, k);
}

/// An absolute path does not begin with a dash.
pub(crate) proof fn lemma_absolute_head(style: PathStyle, x: Seq<char>)
    requires
        absolute(style, x),
    ensures
        x.len() > 0,
        x[0] != '-',
{
}

// ── Effective arguments ─────────────────────────────────────────────────

/// Unless the client asks for remapping and there is a root, arguments are left alone.
pub proof fn lemma_effective_off(
    style: PathStyle,
    args: Seq<Seq<char>>,
    family: CompilerFamily,
    cwd: Seq<char>,
    root: Option<Seq<char>>,
    env: Seq<(Seq<char>, Seq<char>)>,
)
    requires
        !auto_remap(env) || root is None,
    ensures
        effective(style, args, family, cwd, root, env) == args,
{
}

/// The user's arguments stay, in order; what is added stands in one place, which is the front,
/// or for Rust behind a leading `rustc`. So a later mapping of the user's still wins, and a
/// leading `rustc` still leads.
pub proof fn lemma_effective_keeps_args(
    style: PathStyle,
    args: Seq<Seq<char>>,
    family: CompilerFamily,
    cwd: Seq<char>,
    root: Option<Seq<char>>,
    env: Seq<(Seq<char>, Seq<char>)>,
)
    ensures
        ({
            let at: int = if family == CompilerFamily::Rustc {
                shim_len(style, args) as int
            } else {
                0
            };
            let out = effective(style, args, family, cwd, root, env);
            &&& out.len() >= args.len()
            &&& out.take(at) == args.take(at)
            &&& out.skip(out.len() - (args.len() - at)) == args.skip(at)
        }),
{
    let at: int = if family == CompilerFamily::Rustc {
        shim_len(style, args) as int
    } else {
        0
    };
    let out = effective(style, args, family, cwd, root, env);
    assert(out.take(at) =~= args.take(at));
    assert(out.skip(out.len() - (args.len() - at)) =~= args.skip(at));
}

/// Nothing is added for a directory that is mapped with every flag.
proof fn lemma_nothing_to_add(style: PathStyle, args: Seq<Seq<char>>, flags: Seq<Seq<char>>, dir: Seq<char>)
    requires
        forall|k: int| 0 <= k < flags.len() ==> has_cc_mapping(style, args, #[trigger] flags[k], dir),
    ensures
        added_maps(style, args, flags, dir) == Seq::<Seq<char>>::empty(),
    decreases flags.len(),
{
    if flags.len() > 0 {
        let init = flags.drop_last();
        assert forall|k: int| 0 <= k < init.len() implies has_cc_mapping(style, args, #[trigger] init[k], dir) by {
            assert(init[k] == flags[k]);
        }
        lemma_nothing_to_add(style, args, init, dir);
        assert(has_cc_mapping(style, args, flags[flags.len() - 1], dir));
    }
}

/// What is added maps the directory with each flag that did not.
pub(crate) proof fn lemma_added_maps(style: PathStyle, args: Seq<Seq<char>>, flags: Seq<Seq<char>>, dir: Seq<char>, k: int)
    requires
        0 <= k < flags.len(),
        !has_cc_mapping(style, args, flags[k], dir),
    ensures
        added_maps(style, args, flags, dir).contains(map_arg(flags[k], dir)),
    decreases flags.len(),
{
    let init = flags.drop_last();
    let before = added_maps(style, args, init, dir);
    let now = added_maps(style, args, flags, dir);
    if k == flags.len() - 1 {
        assert(now[before.len() as int] == map_arg(flags[k], dir));
    } else {
        assert(init[k] == flags[k]);
        lemma_added_maps(style, args, init, dir, k);
        let i = before.index_of(map_arg(flags[k], dir));
        assert(now[i] == map_arg(flags[k], dir));
    }
}

/// The added arguments map the directory.
proof fn lemma_map_arg_maps(style: PathStyle, k: int, dir: Seq<char>)
    requires
        0 <= k < auto_flags().len(),
        no_equals(dir),
    ensures
        maps_dir(style, map_arg(auto_flags()[k], dir), auto_flags()[k], dir),
{
    reveal_strlit("=.");
    reveal_strlit("=");
    reveal_strlit(".");
    assert(cc_flags()[k] == auto_flags()[k]);
    lemma_cc_mapping_reads_back(k, dir, "."@);
    assert(map_arg(auto_flags()[k], dir) =~= cc_flags()[k] + "="@ + dir + "="@ + "."@);
}

/// A mapping somewhere in the arguments is found when arguments are put in front.
proof fn lemma_mapping_stays(style: PathStyle, front: Seq<Seq<char>>, args: Seq<Seq<char>>, flag: Seq<char>, dir: Seq<char>)
    requires
        has_cc_mapping(style, args, flag, dir),
    ensures
        has_cc_mapping(style, front + args, flag, dir),
{
    let i = choose|i: int| 0 <= i < args.len() && maps_dir(style, #[trigger] args[i], flag, dir);
    assert(maps_dir(style, (front + args)[front.len() + i], flag, dir));
}

/// With the additions in place, the directory is mapped with every flag.
proof fn lemma_all_mapped(style: PathStyle, args: Seq<Seq<char>>, front: Seq<Seq<char>>, back: Seq<Seq<char>>, dir: Seq<char>)
    requires
        no_equals(dir),
    ensures
        added_maps(style, front + added_maps(style, args, auto_flags(), dir) + back + args, auto_flags(), dir)
            == Seq::<Seq<char>>::empty(),
{
    let added = added_maps(style, args, auto_flags(), dir);
    let out = front + added + back + args;
    let f = auto_flags();
    assert forall|k: int| 0 <= k < f.len() implies has_cc_mapping(style, out, #[trigger] f[k], dir) by {
        if has_cc_mapping(style, args, f[k], dir) {
            lemma_mapping_stays(style, front + added + back, args, f[k], dir);
        } else {
            lemma_added_maps(style, args, f, dir, k);
            lemma_map_arg_maps(style, k, dir);
            let i = added.index_of(map_arg(f[k], dir));
            assert(out[front.len() + i] == map_arg(f[k], dir));
            assert(maps_dir(style, out[front.len() + i], f[k], dir));
        }
    }
    lemma_nothing_to_add(style, out, f, dir);
}

/// Adding twice is the same as adding once. (A directory with `=` in its name is mapped only up
/// to the `=`, and a Rust mapping must be of an absolute path.)
pub proof fn lemma_effective_idempotent(
    style: PathStyle,
    args: Seq<Seq<char>>,
    family: CompilerFamily,
    cwd: Seq<char>,
    root: Option<Seq<char>>,
    env: Seq<(Seq<char>, Seq<char>)>,
)
    requires
        root matches Some(r) ==> no_equals(r) && absolute(style, r),
        no_equals(cwd),
    ensures
        effective(style, effective(style, args, family, cwd, root, env), family, cwd, root, env) == effective(
            style,
            args,
            family,
            cwd,
            root,
            env,
        ),
{
    let out = effective(style, args, family, cwd, root, env);
    if auto_remap(env) && root is Some {
        let r = root->0;
        if family == CompilerFamily::Rustc {
            if !args_remap(style, args, r) {
                let at = shim_len(style, args) as int;
                lemma_rust_remap_found(style, args.take(at), r, args.skip(at), at);
                assert(out =~= args.take(at) + seq!["--remap-path-prefix"@, r + "=."@] + args.skip(at));
            }
        } else if family == CompilerFamily::Clang || family == CompilerFamily::Gcc {
            let a = added_maps(style, args, auto_flags(), r);
            let none = Seq::<Seq<char>>::empty();
            if same_key(style, r, cwd) {
                lemma_all_mapped(style, args, none, none, r);
                assert(none + a + none + args =~= out);
                assert(effective(style, out, family, cwd, root, env) =~= out);
            } else {
                let b = added_maps(style, args, auto_flags(), cwd);
                lemma_all_mapped(style, args, none, b, r);
                lemma_all_mapped(style, args, a, none, cwd);
                assert(none + a + b + args =~= out);
                assert(a + b + none + args =~= out);
                assert(effective(style, out, family, cwd, root, env) =~= out);
            }
        }
    }
}

/// The added mapping is found, behind a leading `rustc` too.
proof fn lemma_rust_remap_found(style: PathStyle, front: Seq<Seq<char>>, root: Seq<char>, back: Seq<Seq<char>>, at: int)
    requires
        no_equals(root),
        absolute(style, root),
        front.len() == at,
        at == 0 || (at == 1 && crate::path::stem_of(style, front[0]) == Some("rustc"@)),
    ensures
        args_remap(style, front + seq!["--remap-path-prefix"@, root + "=."@] + back, root),
{
    let out = front + seq!["--remap-path-prefix"@, root + "=."@] + back;
    reveal_strlit("=.");
    reveal_strlit("=");
    reveal_strlit(".");
    assert(root + "=."@ =~= root + "="@ + "."@);
    lemma_split_equals(root, "."@);
    assert(remaps(style, root + "=."@, root));
    assert(out[at] == "--remap-path-prefix"@);
    assert(out[at + 1] == root + "=."@);
    let rest = remap_values(out, at + 2);
    assert(remap_values(out, at) == seq![root + "=."@] + rest);
    if at == 0 {
        assert(remaps(style, remap_values(out, 0)[0], root));
    } else {
        assert(out[0] == front[0]);
        if out[0] == "--remap-path-prefix"@ {
            lemma_flag_has_no_rustc_stem(style);
        }
        let first: Seq<Seq<char>> = match without_prefix(out[0], "--remap-path-prefix="@) {
            Some(value) => seq![value],
            None => Seq::empty(),
        };
        assert(remap_values(out, 0) == first + remap_values(out, 1));
        assert(remap_values(out, 0)[first.len() as int] == root + "=."@);
        assert(remaps(style, remap_values(out, 0)[first.len() as int], root));
    }
}

/// `--remap-path-prefix` is not the path of `rustc`.
proof fn lemma_flag_has_no_rustc_stem(style: PathStyle)
    ensures
        crate::path::stem_of(style, "--remap-path-prefix"@) != Some("rustc"@),
{
    reveal_strlit("--remap-path-prefix");
    reveal_strlit("rustc");
    let s = "--remap-path-prefix"@;
    assert(s.skip(0) =~= s);
    assert(prefix_len(style, s) == 0);
    assert forall|i: int| 0 <= i < s.len() implies !crate::path::stops(style, false)(#[trigger] s[i]) by {}
    crate::path::lemma_split_whole(s, crate::path::stops(style, false));
    reveal_with_fuel(crate::path::kept, 2);
    let one = seq![s];
    assert(one.drop_last() =~= Seq::<Seq<char>>::empty());
    assert(s.len() != crate::path::here().len());
    assert(Seq::<Seq<char>>::empty().push(s) =~= one);
    assert(crate::path::parts(style, s) == one);
    assert forall|j: int| -1 < j < s.len() implies s[j] != '.' by {}
    crate::text::lemma_last_at(s, '.', -1);
    assert(one.last() == s);
    assert(s.len() != crate::path::up().len());
    assert(crate::path::name_of(style, s) == Some(s));
    assert(crate::path::stem_of(style, s) == Some(s));
    assert(s.len() != "rustc"@.len());
}

// ── The environment ─────────────────────────────────────────────────────

/// Picking from a list commutes with forgetting its order.
proof fn lemma_filter_multiset<A>(s: Seq<A>, t: Seq<A>, pick: spec_fn(A) -> bool)
    requires
        s.to_multiset() == t.to_multiset(),
    ensures
        s.filter(pick).to_multiset() == t.filter(pick).to_multiset(),
{
    lemma_filtered_multiset(s, pick);
    lemma_filtered_multiset(t, pick);
}

/// Picking from a list is picking from its multiset.
proof fn lemma_filtered_multiset<A>(s: Seq<A>, pick: spec_fn(A) -> bool)
    ensures
        s.filter(pick).to_multiset() == s.to_multiset().filter(pick),
    decreases s.len(),
{
    reveal(Seq::filter);
    if s.len() == 0 {
        s.to_multiset_ensures();
        s.filter(pick).to_multiset_ensures();
        assert(s.filter(pick).to_multiset() =~= s.to_multiset().filter(pick));
    } else {
        let init = s.drop_last();
        lemma_filtered_multiset(init, pick);
        assert(init.push(s.last()) =~= s);
        vstd::seq_lib::to_multiset_build(init, s.last());
        vstd::seq_lib::to_multiset_build(init.filter(pick), s.last());
        assert(s.filter(pick).to_multiset() =~= s.to_multiset().filter(pick));
    }
}

/// The order in which variables are set does not show in the fingerprint.
pub proof fn lemma_env_order_ignored(
    style: PathStyle,
    compiler: Seq<char>,
    args: Seq<Seq<char>>,
    cwd: Seq<char>,
    root: Option<Seq<char>>,
    env_a: Seq<(Seq<char>, Seq<char>)>,
    env_b: Seq<(Seq<char>, Seq<char>)>,
)
    requires
        env_a.to_multiset() == env_b.to_multiset(),
    ensures
        request_bytes(style, compiler, args, cwd, root, env_a) == request_bytes(style, compiler, args, cwd, root, env_b),
{
    let pick = |v: (Seq<char>, Seq<char>)| counts(v.0);
    lemma_filter_multiset(env_a, env_b, pick);
    lemma_pair_order();
    lemma_sorted_forgets_order(counting(env_a), counting(env_b), pair_order());
}

/// A variable that does not count, such as `CARGO_TARGET_DIR`, does not show in the fingerprint:
/// the request is the same without it.
pub proof fn lemma_placement_ignored(
    style: PathStyle,
    compiler: Seq<char>,
    args: Seq<Seq<char>>,
    cwd: Seq<char>,
    root: Option<Seq<char>>,
    env: Seq<(Seq<char>, Seq<char>)>,
    at: int,
)
    requires
        0 <= at < env.len(),
        !counts(env[at].0),
    ensures
        request_bytes(style, compiler, args, cwd, root, env) == request_bytes(
            style,
            compiler,
            args,
            cwd,
            root,
            env.remove(at),
        ),
{
    let pick = |v: (Seq<char>, Seq<char>)| counts(v.0);
    let a = env.take(at);
    let one = seq![env[at]];
    let b = env.skip(at + 1);
    assert(env =~= a + one + b);
    assert(env.remove(at) =~= a + b);
    Seq::filter_distributes_over_add(a + one, b, pick);
    Seq::filter_distributes_over_add(a, one, pick);
    Seq::filter_distributes_over_add(a, b, pick);
    reveal_with_fuel(Seq::filter, 2);
    assert(one.drop_last() =~= Seq::<(Seq<char>, Seq<char>)>::empty());
    assert(one.filter(pick) =~= Seq::<(Seq<char>, Seq<char>)>::empty());
    assert(counting(env) =~= counting(env.remove(at)));
}

// ── Windows spellings ───────────────────────────────────────────────────

/// On Windows a request is the same however the case and the slashes of its compiler's path and
/// of its working directory are written; of verbatim paths, however the case is.
pub proof fn lemma_windows_spellings_agree(
    compiler_a: Seq<char>,
    compiler_b: Seq<char>,
    args: Seq<Seq<char>>,
    cwd_a: Seq<char>,
    cwd_b: Seq<char>,
    env: Seq<(Seq<char>, Seq<char>)>,
)
    requires
        alike(compiler_a, compiler_b),
        alike(cwd_a, cwd_b),
        verbatim(PathStyle::Windows, compiler_a) || verbatim(PathStyle::Windows, compiler_b) ==> lower_ascii(compiler_a)
            == lower_ascii(compiler_b),
        verbatim(PathStyle::Windows, cwd_a) || verbatim(PathStyle::Windows, cwd_b) ==> lower_ascii(cwd_a) == lower_ascii(cwd_b),
    ensures
        request_bytes(PathStyle::Windows, compiler_a, args, cwd_a, None, env) == request_bytes(
            PathStyle::Windows,
            compiler_b,
            args,
            cwd_b,
            None,
            env,
        ),
{
    lemma_windows_keys_fold(compiler_a, compiler_b);
    lemma_windows_keys_fold(cwd_a, cwd_b);
}

// ── Moving a worktree ───────────────────────────────────────────────────

/// Whether `q` is to the root `b` what `p` is to the root `a`: the same path below it.
pub open spec fn moved_path(style: PathStyle, p: Seq<char>, q: Seq<char>, a: Seq<char>, b: Seq<char>) -> bool {
    &&& absolute(style, p)
    &&& absolute(style, q)
    &&& below(style, p, a) is Some
    &&& below(style, p, a) == below(style, q, b)
}

/// The ways in which an argument gives a path.
pub enum Form {
    /// The path alone.
    Bare,
    /// Behind `-I`.
    Include,
    /// Behind `-L`.
    Library,
    /// On the old side of a mapping of a C compiler, given with one of its flags.
    CcMap(int, Seq<char>),
    /// On the old side of a mapping of `rustc`.
    Remap(Seq<char>),
    /// Behind `name=`.
    Named(Seq<char>),
}

/// The argument that gives `path` in this form.
pub open spec fn form_text(form: Form, path: Seq<char>) -> Seq<char> {
    match form {
        Form::Bare => path,
        Form::Include => "-I"@ + path,
        Form::Library => "-L"@ + path,
        Form::CcMap(k, to) => cc_flags()[k] + "="@ + path + "="@ + to,
        Form::Remap(to) => "--remap-path-prefix="@ + mapping_text(path, to),
        Form::Named(name) => mapping_text(name, path),
    }
}

/// Whether `path` can be given in this form: where `=` sets it off, it holds none itself.
pub open spec fn form_fits(style: PathStyle, form: Form, path: Seq<char>) -> bool {
    match form {
        Form::Bare => true,
        Form::Include => true,
        Form::Library => true,
        Form::CcMap(k, _) => 0 <= k < cc_flags().len() && no_equals(path),
        Form::Remap(_) => no_equals(path),
        Form::Named(name) => plain_name(style, name) && no_equals(path),
    }
}

/// Whether the arguments give `p` and `q` in this form, and `p` becomes `q` by a move.
pub open spec fn moved_in(
    style: PathStyle,
    form: Form,
    p: Seq<char>,
    q: Seq<char>,
    x: Seq<char>,
    y: Seq<char>,
    a: Seq<char>,
    b: Seq<char>,
) -> bool {
    &&& moved_path(style, p, q, a, b)
    &&& form_fits(style, form, p)
    &&& form_fits(style, form, q)
    &&& x == form_text(form, p)
    &&& y == form_text(form, q)
}

/// Whether two arguments are one path argument before and after a move of the worktree.
pub open spec fn moved_arg(style: PathStyle, x: Seq<char>, y: Seq<char>, a: Seq<char>, b: Seq<char>) -> bool {
    exists|form: Form, p: Seq<char>, q: Seq<char>| #[trigger] moved_in(style, form, p, q, x, y, a, b)
}

/// Whether `name=` before a path is no flag with a meaning of its own, nor the start of a share.
pub open spec fn plain_name(style: PathStyle, name: Seq<char>) -> bool {
    &&& no_equals(name)
    &&& !absolute(style, name)
    &&& !two_seps(style, name)
    &&& !"-I"@.is_prefix_of(name)
    &&& !"-L"@.is_prefix_of(name)
    &&& name != "--remap-path-prefix"@
}

/// The mapping of `from` to `to`.
pub open spec fn mapping_text(from: Seq<char>, to: Seq<char>) -> Seq<char> {
    from + "="@ + to
}

/// Whether `x` and `y` map `p` and `q` to `to`, and `p` becomes `q` by a move.
pub open spec fn moved_mapping(
    style: PathStyle,
    p: Seq<char>,
    q: Seq<char>,
    to: Seq<char>,
    x: Seq<char>,
    y: Seq<char>,
    a: Seq<char>,
    b: Seq<char>,
) -> bool {
    &&& moved_path(style, p, q, a, b)
    &&& no_equals(p)
    &&& no_equals(q)
    &&& x == mapping_text(p, to)
    &&& y == mapping_text(q, to)
}

/// Whether an argument is spelled alike for both roots: it holds no path, or one outside both.
pub open spec fn unmoved_arg(style: PathStyle, x: Seq<char>, a: Seq<char>, b: Seq<char>) -> bool {
    request_arg(style, x, Some(a)) == request_arg(style, x, Some(b))
}

/// Whether a detached mapping is spelled alike for both roots: it is malformed, or maps a
/// directory outside both.
pub open spec fn unmoved_mapping(style: PathStyle, value: Seq<char>, a: Seq<char>, b: Seq<char>) -> bool {
    request_detached(style, value, Some(a)) == request_detached(style, value, Some(b))
}

/// Whether two command lines are one command line before and after a move of the worktree.
pub open spec fn moved_args(
    style: PathStyle,
    xs: Seq<Seq<char>>,
    ys: Seq<Seq<char>>,
    i: int,
    a: Seq<char>,
    b: Seq<char>,
) -> bool
    decreases xs.len() - i,
{
    if i < 0 || i >= xs.len() {
        true
    } else if xs[i] == "--remap-path-prefix"@ {
        &&& ys[i] == xs[i]
        &&& i + 1 < xs.len() ==> {
            &&& moved_args(style, xs, ys, i + 2, a, b)
            &&& (ys[i + 1] == xs[i + 1] && unmoved_mapping(style, xs[i + 1], a, b)) || exists|
                p: Seq<char>,
                q: Seq<char>,
                to: Seq<char>,
            | #[trigger] moved_mapping(style, p, q, to, xs[i + 1], ys[i + 1], a, b)
        }
    } else {
        &&& ys[i] != "--remap-path-prefix"@
        &&& (ys[i] == xs[i] && unmoved_arg(style, xs[i], a, b)) || moved_arg(style, xs[i], ys[i], a, b)
        &&& moved_args(style, xs, ys, i + 1, a, b)
    }
}

/// A moved path is spelled alike.
proof fn lemma_moved_path(style: PathStyle, p: Seq<char>, q: Seq<char>, a: Seq<char>, b: Seq<char>)
    requires
        moved_path(style, p, q, a, b),
    ensures
        request_value(style, p, Some(a)) is Some,
        request_value(style, p, Some(a)) == request_value(style, q, Some(b)),
        p.len() > 0,
        q.len() > 0,
        p[0] != '-',
        q[0] != '-',
{
    lemma_absolute_head(style, p);
    lemma_absolute_head(style, q);
}

/// A path argument is spelled as the path is.
proof fn lemma_spelled_path(style: PathStyle, p: Seq<char>, root: Seq<char>)
    requires
        absolute(style, p),
    ensures
        request_arg(style, p, Some(root)) == request_path(style, p, Some(root)),
{
    lemma_absolute_head(style, p);
    lemma_no_cc_mapping(p);
    reveal_strlit("--remap-path-prefix=");
    if "--remap-path-prefix="@.is_prefix_of(p) {
        assert(p.take("--remap-path-prefix="@.len() as int)[0] == p[0]);
    }
}

/// What follows `-I` is spelled as the path is.
proof fn lemma_spelled_attached(style: PathStyle, p: Seq<char>, root: Seq<char>)
    requires
        absolute(style, p),
    ensures
        request_arg(style, "-I"@ + p, Some(root)) == "-I"@ + request_path(style, p, Some(root)),
        request_arg(style, "-L"@ + p, Some(root)) == "-L"@ + request_path(style, p, Some(root)),
{
    reveal_strlit("-I");
    reveal_strlit("-L");
    reveal_strlit("--remap-path-prefix=");
    lemma_absolute_head(style, p);
    let x = "-I"@ + p;
    let y = "-L"@ + p;
    assert(x[0] == '-' && x[1] == 'I');
    assert(y[0] == '-' && y[1] == 'L');
    lemma_no_cc_mapping(x);
    lemma_no_cc_mapping(y);
    if "--remap-path-prefix="@.is_prefix_of(x) {
        assert(x.take("--remap-path-prefix="@.len() as int)[1] == x[1]);
    }
    if "--remap-path-prefix="@.is_prefix_of(y) {
        assert(y.take("--remap-path-prefix="@.len() as int)[1] == y[1]);
    }
    if absolute(style, x) {
        lemma_absolute_head(style, x);
    }
    if absolute(style, y) {
        lemma_absolute_head(style, y);
    }
    lemma_prefix("-I"@, p);
    lemma_prefix("-L"@, p);
    if "-I"@.is_prefix_of(y) {
        assert(y.take(2)[1] == y[1]);
    }
}

/// A mapping of a C compiler is spelled with the path that it maps.
proof fn lemma_spelled_cc(style: PathStyle, k: int, p: Seq<char>, to: Seq<char>, root: Seq<char>)
    requires
        0 <= k < cc_flags().len(),
        absolute(style, p),
        no_equals(p),
    ensures
        request_arg(style, cc_flags()[k] + "="@ + p + "="@ + to, Some(root)) == cc_flags()[k] + "="@ + request_path(
            style,
            p,
            Some(root),
        ) + "="@ + to,
{
    lemma_cc_mapping_reads_back(k, p, to);
}

/// A mapping of `rustc` is spelled with the path that it maps.
pub(crate) proof fn lemma_spelled_remap(style: PathStyle, p: Seq<char>, to: Seq<char>, root: Seq<char>)
    requires
        absolute(style, p),
        no_equals(p),
    ensures
        request_mapping(style, mapping_text(p, to), Some(root)) == Some(
            request_path(style, p, Some(root)) + "="@ + to,
        ),
        request_arg(style, "--remap-path-prefix="@ + mapping_text(p, to), Some(root)) == "--remap-path-prefix="@ + (
        request_path(style, p, Some(root)) + "="@ + to),
{
    reveal_strlit("--remap-path-prefix=");
    lemma_split_equals(p, to);
    let x = "--remap-path-prefix="@ + mapping_text(p, to);
    assert(x[0] == '-' && x[1] == '-');
    lemma_no_cc_mapping(x);
    lemma_prefix("--remap-path-prefix="@, mapping_text(p, to));
}

/// An argument with one `=` is no mapping of a C compiler.
proof fn lemma_one_equals_is_no_mapping(name: Seq<char>, p: Seq<char>)
    requires
        no_equals(name),
        no_equals(p),
    ensures
        cc_mapping(mapping_text(name, p)) is None,
{
    reveal_strlit("=");
    lemma_flag_heads();
    let x = mapping_text(name, p);
    let f = cc_flags();
    assert forall|k: int| 0 <= k < f.len() implies flag_mapping(x, #[trigger] f[k]) is None by {
        if f[k].is_prefix_of(x) {
            let n = f[k].len() as int;
            assert(no_equals(f[k]));
            assert(x.take(n) == f[k]);
            if n > name.len() {
                assert(x.take(n)[name.len() as int] == x[name.len() as int]);
                assert(x[name.len() as int] == '=');
            }
            let rest = x.skip(n);
            if n < name.len() {
                assert(rest[0] == name[n]);
                if "="@.is_prefix_of(rest) {
                    assert(rest.take(1)[0] == rest[0]);
                }
            } else {
                assert(rest =~= "="@ + p);
                lemma_prefix("="@, p);
                lemma_first_at(p, '=', p.len() as int);
            }
        }
    }
    lemma_no_flag(x, f);
}

/// `name=` is `--remap-path-prefix=` only where `name` is that flag.
proof fn lemma_named_is_no_remap(name: Seq<char>, p: Seq<char>)
    requires
        no_equals(name),
        name != "--remap-path-prefix"@,
    ensures
        without_prefix(mapping_text(name, p), "--remap-path-prefix="@) is None,
{
    reveal_strlit("=");
    reveal_strlit("--remap-path-prefix=");
    reveal_strlit("--remap-path-prefix");
    let flag = "--remap-path-prefix="@;
    let word = "--remap-path-prefix"@;
    let x = mapping_text(name, p);
    let n = name.len() as int;
    assert(x[n] == '=');
    assert(flag =~= word + "="@);
    if flag.is_prefix_of(x) {
        let head = x.take(flag.len() as int);
        assert(head == flag);
        if n < word.len() {
            assert(head[n] == x[n]);
            assert(word[n] == '=');
            assert(no_equals(word));
        } else if n > word.len() {
            assert(head[word.len() as int] == x[word.len() as int]);
            assert(name[word.len() as int] == '=');
        } else {
            assert(head.take(n) =~= name);
            assert(flag.take(n) =~= word);
        }
    }
}

/// `name=` does not make a path absolute.
proof fn lemma_named_is_relative(style: PathStyle, name: Seq<char>, p: Seq<char>)
    requires
        !absolute(style, name),
        !two_seps(style, name),
    ensures
        !absolute(style, mapping_text(name, p)),
{
    reveal_strlit("=");
    let x = mapping_text(name, p);
    let n = name.len() as int;
    assert(x[n] == '=');
    if n >= 3 {
        assert(x[0] == name[0] && x[1] == name[1] && x[2] == name[2]);
    } else if n == 2 {
        assert(x[0] == name[0] && x[1] == name[1]);
    } else if n == 1 {
        assert(x[0] == name[0]);
    }
}

/// `name=` begins with a flag of two letters only where `name` does.
proof fn lemma_named_is_no_flag(flag: Seq<char>, name: Seq<char>, p: Seq<char>)
    requires
        flag.len() == 2,
        no_equals(flag),
        !flag.is_prefix_of(name),
    ensures
        without_prefix(mapping_text(name, p), flag) is None,
{
    reveal_strlit("=");
    let x = mapping_text(name, p);
    let n = name.len() as int;
    assert(x[n] == '=');
    if flag.is_prefix_of(x) {
        let head = x.take(2);
        assert(head == flag);
        assert(head[0] == x[0] && head[1] == x[1]);
        if n < 2 {
            assert(head[n] == '=');
        } else {
            assert(name.take(2) =~= flag);
        }
    }
}

/// An argument that nothing else reads is read by its two sides.
proof fn lemma_read_by_sides(style: PathStyle, x: Seq<char>, name: Seq<char>, p: Seq<char>, root: Seq<char>)
    requires
        cc_mapping(x) is None,
        without_prefix(x, "--remap-path-prefix="@) is None,
        !absolute(style, x),
        without_prefix(x, "-I"@) is None,
        without_prefix(x, "-L"@) is None,
        split_once_at(x, '=') == Some((name, p)),
        !absolute(style, name),
        absolute(style, p),
    ensures
        request_arg(style, x, Some(root)) == name + "="@ + request_path(style, p, Some(root)),
{
}

/// What follows `name=` is spelled as the path is.
proof fn lemma_spelled_named(style: PathStyle, name: Seq<char>, p: Seq<char>, root: Seq<char>)
    requires
        plain_name(style, name),
        absolute(style, p),
        no_equals(p),
    ensures
        request_arg(style, mapping_text(name, p), Some(root)) == name + "="@ + request_path(style, p, Some(root)),
{
    let x = mapping_text(name, p);
    lemma_one_equals_is_no_mapping(name, p);
    lemma_split_equals(name, p);
    lemma_named_is_no_remap(name, p);
    lemma_named_is_relative(style, name, p);
    assert("-I"@.len() == 2 && no_equals("-I"@) && "-L"@.len() == 2 && no_equals("-L"@)) by {
        reveal_strlit("-I");
        reveal_strlit("-L");
    }
    lemma_named_is_no_flag("-I"@, name, p);
    lemma_named_is_no_flag("-L"@, name, p);
    lemma_read_by_sides(style, x, name, p, root);
}

/// In every form an argument is spelled as its path is.
pub proof fn lemma_spelled(style: PathStyle, form: Form, p: Seq<char>, root: Seq<char>)
    requires
        absolute(style, p),
        form_fits(style, form, p),
    ensures
        request_arg(style, form_text(form, p), Some(root)) == form_text(form, request_path(style, p, Some(root))),
{
    match form {
        Form::Bare => lemma_spelled_path(style, p, root),
        Form::Include => lemma_spelled_attached(style, p, root),
        Form::Library => lemma_spelled_attached(style, p, root),
        Form::CcMap(k, to) => lemma_spelled_cc(style, k, p, to, root),
        Form::Remap(to) => lemma_spelled_remap(style, p, to, root),
        Form::Named(name) => lemma_spelled_named(style, name, p, root),
    }
}

/// A moved argument is spelled alike.
proof fn lemma_moved_arg(style: PathStyle, x: Seq<char>, y: Seq<char>, a: Seq<char>, b: Seq<char>)
    requires
        moved_arg(style, x, y, a, b),
    ensures
        request_arg(style, x, Some(a)) == request_arg(style, y, Some(b)),
{
    let (form, p, q) = choose|form: Form, p: Seq<char>, q: Seq<char>| #[trigger]
        moved_in(style, form, p, q, x, y, a, b);
    lemma_moved_path(style, p, q, a, b);
    lemma_spelled(style, form, p, a);
    lemma_spelled(style, form, q, b);
}

/// A moved command line is spelled alike.
proof fn lemma_moved_args(style: PathStyle, xs: Seq<Seq<char>>, ys: Seq<Seq<char>>, i: int, a: Seq<char>, b: Seq<char>)
    requires
        xs.len() == ys.len(),
        0 <= i,
        moved_args(style, xs, ys, i, a, b),
    ensures
        request_args(style, xs, i, Some(a)) == request_args(style, ys, i, Some(b)),
    decreases xs.len() - i,
{
    if i < xs.len() {
        if xs[i] == "--remap-path-prefix"@ {
            if i + 1 < xs.len() {
                lemma_moved_args(style, xs, ys, i + 2, a, b);
                if !(ys[i + 1] == xs[i + 1] && unmoved_mapping(style, xs[i + 1], a, b)) {
                    let (p, q, to) = choose|p: Seq<char>, q: Seq<char>, to: Seq<char>| #[trigger]
                        moved_mapping(style, p, q, to, xs[i + 1], ys[i + 1], a, b);
                    lemma_moved_path(style, p, q, a, b);
                    lemma_spelled_remap(style, p, to, a);
                    lemma_spelled_remap(style, q, to, b);
                }
            }
        } else {
            lemma_moved_args(style, xs, ys, i + 1, a, b);
            if moved_arg(style, xs[i], ys[i], a, b) {
                lemma_moved_arg(style, xs[i], ys[i], a, b);
            }
        }
    }
}

/// Two worktrees share request keys: a request whose working directory and path arguments lie
/// below one root has the same fingerprint as the request with the same paths below another.
pub proof fn lemma_requests_move_with_worktree(
    style: PathStyle,
    compiler: Seq<char>,
    args_a: Seq<Seq<char>>,
    args_b: Seq<Seq<char>>,
    cwd_a: Seq<char>,
    cwd_b: Seq<char>,
    root_a: Seq<char>,
    root_b: Seq<char>,
    env: Seq<(Seq<char>, Seq<char>)>,
)
    requires
        args_a.len() == args_b.len(),
        moved_args(style, args_a, args_b, 0, root_a, root_b),
        moved_path(style, cwd_a, cwd_b, root_a, root_b),
    ensures
        request_bytes(style, compiler, args_a, cwd_a, Some(root_a), env) == request_bytes(
            style,
            compiler,
            args_b,
            cwd_b,
            Some(root_b),
            env,
        ),
{
    lemma_moved_args(style, args_a, args_b, 0, root_a, root_b);
    lemma_moved_path(style, cwd_a, cwd_b, root_a, root_b);
}

} // verus!
