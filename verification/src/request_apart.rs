//! What request fingerprints tell apart.

use vstd::prelude::*;
use crate::graph::hits::no_collision;
use crate::hash::{blake3_hex, field, fields};
use crate::key_laws::{
    lemma_below_no_nul, lemma_encode_concat, lemma_fields_concat, lemma_fields_determine, lemma_key_form_no_nul, no_nul,
    no_nul_pairs, no_nuls, tellable,
};
use crate::keys::{
    cc_flags, cc_mapping, flag_mapping, mapping_with, request_cc_mapping, request_mapping, request_path, request_value, REQUEST_ROOT_MARKER,
};
use crate::order::{lemma_pair_order, lemma_picked, lemma_same_items, lemma_sorted_of, pair_order};
use crate::path::{
    absolute, below, clean, key_form, lemma_clean_keeps_parts, lemma_strip_then_join, lemma_unix_rest, lemma_unix_under, parts,
    PathStyle,
};
use crate::request::{
    counting, counts, key_vars, request_arg, request_args, request_attached, request_bytes, request_detached, request_sides, vars_bytes,
};
use crate::request_laws::{form_fits, form_text, lemma_spelled, lemma_split_equals, mapping_text, no_equals, Form};
use crate::text::{ascii_lower, first_at, split_once_at, without_prefix};

verus! {

// ── Arguments ───────────────────────────────────────────────────────────

/// Whether no reading of an argument finds an absolute path: it is none, what follows `-I` or `-L`
/// is none, neither side of its first `=` is one, and no mapping flag maps one.
pub open spec fn holds_no_path(style: PathStyle, arg: Seq<char>) -> bool {
    &&& !absolute(style, arg)
    &&& forall|rest: Seq<char>| arg == #[trigger] ("-I"@ + rest) ==> !absolute(style, rest)
    &&& forall|rest: Seq<char>| arg == #[trigger] ("-L"@ + rest) ==> !absolute(style, rest)
    &&& forall|left: Seq<char>, right: Seq<char>|
        no_equals(left) && arg == #[trigger] mapping_text(left, right) ==> !absolute(style, left) && !absolute(style, right)
    &&& forall|k: int, from: Seq<char>, to: Seq<char>|
        0 <= k < cc_flags().len() && no_equals(from) && arg == #[trigger] form_text(Form::CcMap(k, to), from) ==> !absolute(
            style,
            from,
        )
    &&& forall|from: Seq<char>, to: Seq<char>|
        no_equals(from) && arg == #[trigger] form_text(Form::Remap(to), from) ==> !absolute(style, from)
}

/// What a split at the first `=` finds.
pub(crate) proof fn lemma_split_sides(s: Seq<char>)
    ensures
        split_once_at(s, '=') matches Some((left, right)) ==> no_equals(left) && s == mapping_text(left, right),
{
    lemma_before_first(s, '=');
    if split_once_at(s, '=') is Some {
        reveal_strlit("=");
        let n = first_at(s, '=');
        let left = s.take(n);
        let right = s.skip(n + 1);
        assert(s =~= left + "="@ + right);
    }
}

/// What stands before the first occurrence.
proof fn lemma_before_first(s: Seq<char>, c: char)
    ensures
        0 <= first_at(s, c) <= s.len(),
        first_at(s, c) < s.len() ==> s[first_at(s, c)] == c,
        forall|i: int| 0 <= i < first_at(s, c) ==> #[trigger] s[i] != c,
    decreases s.len(),
{
    if s.len() > 0 && s[0] != c {
        let rest = s.drop_first();
        lemma_before_first(rest, c);
        assert forall|i: int| 0 <= i < first_at(s, c) implies #[trigger] s[i] != c by {
            if i > 0 {
                assert(rest[i - 1] == s[i]);
            }
        }
    }
}

/// What follows a prefix.
pub(crate) proof fn lemma_after_prefix(s: Seq<char>, prefix: Seq<char>)
    ensures
        without_prefix(s, prefix) matches Some(rest) ==> s == prefix + rest,
{
    if prefix.is_prefix_of(s) {
        assert(s =~= prefix + s.skip(prefix.len() as int));
    }
}

/// A mapping that is read was written so.
pub(crate) proof fn lemma_mapping_read(arg: Seq<char>, flags: Seq<Seq<char>>)
    ensures
        mapping_with(arg, flags) matches Some((flag, from, to)) ==> no_equals(from) && arg == flag + "="@ + from + "="@ + to
            && exists|k: int| 0 <= k < flags.len() && #[trigger] flags[k] == flag,
    decreases flags.len(),
{
    if flags.len() > 0 {
        let flag = flags[0];
        match flag_mapping(arg, flag) {
            Some((from, to)) => {
                lemma_after_prefix(arg, flag);
                let rest = without_prefix(arg, flag)->0;
                lemma_after_prefix(rest, "="@);
                let mapping = without_prefix(rest, "="@)->0;
                lemma_split_sides(mapping);
                assert(arg =~= flag + "="@ + from + "="@ + to);
                assert(flags[0] == flag);
            },
            None => {
                lemma_mapping_read(arg, flags.drop_first());
                if let Some((found, from, to)) = mapping_with(arg, flags) {
                    let k = choose|k: int| 0 <= k < flags.drop_first().len() && #[trigger] flags.drop_first()[k] == found;
                    assert(flags[k + 1] == found);
                }
            },
        }
    }
}

/// An argument in which no reading finds an absolute path stays as it is; and without a root every
/// argument does.
pub proof fn lemma_plain_arg_stays(style: PathStyle, arg: Seq<char>, root: Option<Seq<char>>)
    requires
        root is None || holds_no_path(style, arg),
    ensures
        request_arg(style, arg, root) == arg,
{
    if let Some(r) = root {
        lemma_no_mapped_path(style, arg, root);
        lemma_no_attached_path(style, arg, r);
        lemma_no_path_on_either_side(style, arg, r);
    }
}

/// No mapping flag finds a path in such an argument.
proof fn lemma_no_mapped_path(style: PathStyle, arg: Seq<char>, root: Option<Seq<char>>)
    requires
        holds_no_path(style, arg),
    ensures
        request_cc_mapping(style, arg, root) is None,
        without_prefix(arg, "--remap-path-prefix="@) matches Some(value) ==> request_mapping(style, value, root) is None,
{
    lemma_mapping_read(arg, cc_flags());
    if let Some((flag, from, to)) = cc_mapping(arg) {
        let k = choose|k: int| 0 <= k < cc_flags().len() && #[trigger] cc_flags()[k] == flag;
        assert(arg == form_text(Form::CcMap(k, to), from));
    }
    lemma_after_prefix(arg, "--remap-path-prefix="@);
    if let Some(value) = without_prefix(arg, "--remap-path-prefix="@) {
        lemma_split_sides(value);
        if let Some((from, to)) = split_once_at(value, '=') {
            assert(arg == form_text(Form::Remap(to), from));
        }
    }
}

/// No attached flag finds a path in such an argument.
proof fn lemma_no_attached_path(style: PathStyle, arg: Seq<char>, root: Seq<char>)
    requires
        holds_no_path(style, arg),
    ensures
        request_attached(style, arg, "-I"@, root) is None,
        request_attached(style, arg, "-L"@, root) is None,
{
    lemma_after_prefix(arg, "-I"@);
    lemma_after_prefix(arg, "-L"@);
}

/// No side of such an argument is a path.
proof fn lemma_no_path_on_either_side(style: PathStyle, arg: Seq<char>, root: Seq<char>)
    requires
        holds_no_path(style, arg),
    ensures
        request_sides(style, arg, root) is None,
{
    lemma_split_sides(arg);
    if let Some((left, right)) = split_once_at(arg, '=') {
        assert(arg == mapping_text(left, right));
        assert(!absolute(style, left) && !absolute(style, right));
    }
}

/// Whether an argument is the value of a mapping flag that stands before it.
pub open spec fn is_value(args: Seq<Seq<char>>, j: int) -> bool
    decreases j,
{
    j > 0 && args[j - 1] == "--remap-path-prefix"@ && !is_value(args, j - 1)
}

/// The arguments are spelled one by one, each in its place.
pub proof fn lemma_args_one_by_one(style: PathStyle, args: Seq<Seq<char>>, root: Option<Seq<char>>)
    ensures
        request_args(style, args, 0, root).len() == args.len(),
        forall|j: int|
            0 <= j < args.len() ==> #[trigger] request_args(style, args, 0, root)[j] == (if is_value(args, j) {
                request_detached(style, args[j], root)
            } else if args[j] == "--remap-path-prefix"@ {
                args[j]
            } else {
                request_arg(style, args[j], root)
            }),
{
    lemma_args_from(style, args, 0, root);
    let out = request_args(style, args, 0, root);
    assert forall|j: int| 0 <= j < args.len() implies #[trigger] out[j] == (if is_value(args, j) {
        request_detached(style, args[j], root)
    } else if args[j] == "--remap-path-prefix"@ {
        args[j]
    } else {
        request_arg(style, args[j], root)
    }) by {
        assert(out[j - 0] == out[j]);
    }
}

/// The arguments from some position on are spelled one by one.
proof fn lemma_args_from(style: PathStyle, args: Seq<Seq<char>>, i: int, root: Option<Seq<char>>)
    requires
        0 <= i <= args.len(),
        !is_value(args, i),
    ensures
        request_args(style, args, i, root).len() == args.len() - i,
        forall|j: int|
            i <= j < args.len() ==> #[trigger] request_args(style, args, i, root)[j - i] == (if is_value(args, j) {
                request_detached(style, args[j], root)
            } else if args[j] == "--remap-path-prefix"@ {
                args[j]
            } else {
                request_arg(style, args[j], root)
            }),
    decreases args.len() - i,
{
    if i < args.len() {
        let out = request_args(style, args, i, root);
        if args[i] == "--remap-path-prefix"@ {
            assert(is_value(args, i + 1));
            if i + 1 < args.len() {
                let rest = request_args(style, args, i + 2, root);
                assert(!is_value(args, i + 2));
                lemma_args_from(style, args, i + 2, root);
                assert forall|j: int| i <= j < args.len() implies #[trigger] out[j - i] == (if is_value(args, j) {
                    request_detached(style, args[j], root)
                } else if args[j] == "--remap-path-prefix"@ {
                    args[j]
                } else {
                    request_arg(style, args[j], root)
                }) by {
                    if j >= i + 2 {
                        assert(out[j - i] == rest[j - (i + 2)]);
                    }
                }
            }
        } else {
            let rest = request_args(style, args, i + 1, root);
            assert(!is_value(args, i + 1));
            lemma_args_from(style, args, i + 1, root);
            assert forall|j: int| i <= j < args.len() implies #[trigger] out[j - i] == (if is_value(args, j) {
                request_detached(style, args[j], root)
            } else if args[j] == "--remap-path-prefix"@ {
                args[j]
            } else {
                request_arg(style, args[j], root)
            }) by {
                if j >= i + 1 {
                    assert(out[j - i] == rest[j - (i + 1)]);
                }
            }
        }
    }
}

/// An argument that holds no path is spelled as it is in its place on every command line.
pub proof fn lemma_plain_args_stay(style: PathStyle, args: Seq<Seq<char>>, root: Option<Seq<char>>, j: int)
    requires
        0 <= j < args.len(),
        !is_value(args, j),
        root is None || holds_no_path(style, args[j]),
    ensures
        request_args(style, args, 0, root)[j] == args[j],
{
    lemma_args_one_by_one(style, args, root);
    lemma_plain_arg_stays(style, args[j], root);
    assert(request_args(style, args, 0, root)[j] == args[j]);
}

// ── Paths ───────────────────────────────────────────────────────────────

/// How a path is spelled in request keys: by the marker of the root and what is left of it below the
/// root, where it lies below one, and else as a whole.
pub proof fn lemma_request_path_spelling(style: PathStyle, path: Seq<char>, root: Seq<char>)
    ensures
        request_path(style, path, None) == key_form(style, path),
        below(style, path, root) is None ==> request_path(style, path, Some(root)) == key_form(style, path),
        below(style, path, root) matches Some(rest) ==> request_path(style, path, Some(root)) == (if key_form(style, rest).len() == 0 {
            "$ZCCACHE_WORKTREE_ROOT"@
        } else {
            "$ZCCACHE_WORKTREE_ROOT/"@ + key_form(style, rest)
        }),
{
    reveal_strlit("$ZCCACHE_WORKTREE_ROOT");
    reveal_strlit("$ZCCACHE_WORKTREE_ROOT/");
    reveal_strlit("/");
    assert("$ZCCACHE_WORKTREE_ROOT"@ + "/"@ =~= "$ZCCACHE_WORKTREE_ROOT/"@);
}

/// A mapping behind its flag stays as it is, unless it maps an absolute path.
pub proof fn lemma_plain_value_stays(style: PathStyle, value: Seq<char>, root: Option<Seq<char>>)
    requires
        forall|from: Seq<char>, to: Seq<char>|
            no_equals(from) && value == #[trigger] mapping_text(from, to) ==> !absolute(style, from),
    ensures
        request_detached(style, value, root) == value,
{
    lemma_split_sides(value);
    if let Some((from, to)) = split_once_at(value, '=') {
        assert(value == mapping_text(from, to));
    }
}

/// A mapping of an absolute path behind its flag is spelled with the spelling of the path.
pub proof fn lemma_mapping_value_spelled(style: PathStyle, from: Seq<char>, to: Seq<char>, root: Option<Seq<char>>)
    requires
        no_equals(from),
        absolute(style, from),
    ensures
        request_detached(style, mapping_text(from, to), root) == mapping_text(request_path(style, from, root), to),
{
    lemma_split_equals(from, to);
}

/// On Unix the spelling of an absolute path in request keys determines the path.
pub proof fn lemma_request_path_determines(p: Seq<char>, q: Seq<char>, root: Option<Seq<char>>)
    requires
        absolute(PathStyle::Unix, p),
        absolute(PathStyle::Unix, q),
        tellable(p, root),
        request_path(PathStyle::Unix, p, root) == request_path(PathStyle::Unix, q, root),
    ensures
        parts(PathStyle::Unix, p) == parts(PathStyle::Unix, q),
{
    let style = PathStyle::Unix;
    reveal_strlit("$ZCCACHE_WORKTREE_ROOT");
    reveal_strlit("/");
    lemma_clean_keeps_parts(style, p);
    lemma_clean_keeps_parts(style, q);
    if let Some(r) = root {
        let marker = REQUEST_ROOT_MARKER@;
        let x = request_path(style, p, root);
        let y = request_path(style, q, root);
        if below(style, p, r) is Some {
            lemma_unix_rest(p, r);
            lemma_unix_under(p, r);
            lemma_strip_then_join(style, p, r);
            assert(x[0] == '$');
        } else {
            assert(x[0] == '/');
        }
        if below(style, q, r) is Some {
            lemma_unix_rest(q, r);
            lemma_unix_under(q, r);
            lemma_strip_then_join(style, q, r);
            assert(y[0] == '$');
        } else {
            assert(y[0] == '/');
        }
        if below(style, p, r) is Some {
            let a = below(style, p, r)->0;
            let b = below(style, q, r)->0;
            let front = marker + "/"@;
            if a.len() > 0 {
                assert(x.skip(front.len() as int) =~= a);
            }
            if b.len() > 0 {
                assert(y.skip(front.len() as int) =~= b);
            }
            assert(a =~= b);
        }
    }
}

/// The argument that gives a path in some form determines the path.
proof fn lemma_form_determines(form: Form, p: Seq<char>, q: Seq<char>)
    requires
        form_text(form, p) == form_text(form, q),
    ensures
        p == q,
{
    let x = form_text(form, p);
    let y = form_text(form, q);
    match form {
        Form::Bare => {},
        Form::Include => {
            assert(x.skip("-I"@.len() as int) =~= p);
            assert(y.skip("-I"@.len() as int) =~= q);
        },
        Form::Library => {
            assert(x.skip("-L"@.len() as int) =~= p);
            assert(y.skip("-L"@.len() as int) =~= q);
        },
        Form::CcMap(k, to) => {
            let n = (cc_flags()[k] + "="@).len() as int;
            assert(x.len() == n + p.len() + "="@.len() + to.len());
            assert(y.len() == n + q.len() + "="@.len() + to.len());
            assert(x == y);
            assert(p.len() == q.len());
            assert(x.subrange(n, n + p.len()) =~= p);
            assert(y.subrange(n, n + q.len()) =~= q);
        },
        Form::Remap(to) => {
            let n = "--remap-path-prefix="@.len() as int;
            assert(x.len() == n + p.len() + "="@.len() + to.len());
            assert(y.len() == n + q.len() + "="@.len() + to.len());
            assert(x == y);
            assert(p.len() == q.len());
            assert(x.subrange(n, n + p.len()) =~= p);
            assert(y.subrange(n, n + q.len()) =~= q);
        },
        Form::Named(name) => {
            let n = (name + "="@).len() as int;
            assert(x.skip(n) =~= p);
            assert(y.skip(n) =~= q);
        },
    }
}

/// On Unix arguments that give different paths in one form are spelled apart.
pub proof fn lemma_path_args_told_apart(form: Form, p: Seq<char>, q: Seq<char>, root: Seq<char>)
    requires
        absolute(PathStyle::Unix, root),
        absolute(PathStyle::Unix, p),
        absolute(PathStyle::Unix, q),
        form_fits(PathStyle::Unix, form, p),
        form_fits(PathStyle::Unix, form, q),
        request_arg(PathStyle::Unix, form_text(form, p), Some(root)) == request_arg(
            PathStyle::Unix,
            form_text(form, q),
            Some(root),
        ),
    ensures
        parts(PathStyle::Unix, p) == parts(PathStyle::Unix, q),
{
    let style = PathStyle::Unix;
    lemma_spelled(style, form, p, root);
    lemma_spelled(style, form, q, root);
    lemma_form_determines(form, request_path(style, p, Some(root)), request_path(style, q, Some(root)));
    lemma_request_path_determines(p, q, Some(root));
}

// ── The environment ─────────────────────────────────────────────────────

/// The variables that count are those that cargo sets, with their values, but the five that say
/// where things lie or how the build is run.
pub proof fn lemma_vars_that_count(env: Seq<(Seq<char>, Seq<char>)>, name: Seq<char>, value: Seq<char>)
    ensures
        key_vars(env).contains((name, value)) <==> {
            &&& env.contains((name, value))
            &&& "CARGO_"@.is_prefix_of(name)
            &&& name != "CARGO_MAKEFLAGS"@
            &&& name != "CARGO_INCREMENTAL"@
            &&& name != "CARGO_MANIFEST_DIR"@
            &&& name != "CARGO_MANIFEST_PATH"@
            &&& name != "CARGO_TARGET_DIR"@
        },
{
    let pick = |v: (Seq<char>, Seq<char>)| counts(v.0);
    lemma_picked(env, pick, (name, value));
    lemma_pair_order();
    lemma_sorted_of(counting(env), pair_order());
    lemma_same_items(counting(env), key_vars(env), (name, value));
}

// ── The fingerprint ─────────────────────────────────────────────────────

/// Variables as texts.
pub open spec fn var_texts(vars: Seq<(Seq<char>, Seq<char>)>) -> Seq<Seq<char>> {
    Seq::new(vars.len(), |i: int| mapping_text(vars[i].0, vars[i].1))
}

/// Variables are hashed as texts are.
proof fn lemma_vars_bytes(vars: Seq<(Seq<char>, Seq<char>)>)
    ensures
        vars_bytes(vars) == fields(var_texts(vars)),
    decreases vars.len(),
{
    if vars.len() > 0 {
        let init = vars.drop_last();
        let (name, value) = vars.last();
        lemma_vars_bytes(init);
        assert(var_texts(vars).drop_last() =~= var_texts(init));
        lemma_encode_concat(name, "="@);
        lemma_encode_concat(name + "="@, value);
        assert(vars_bytes(vars) =~= fields(var_texts(init)) + field(mapping_text(name, value)));
    }
}

/// The texts that a request is hashed as.
pub open spec fn request_texts(
    style: PathStyle,
    compiler: Seq<char>,
    args: Seq<Seq<char>>,
    cwd: Seq<char>,
    root: Option<Seq<char>>,
    env: Seq<(Seq<char>, Seq<char>)>,
) -> Seq<Seq<char>> {
    seq!["zccache-request-v2"@, key_form(style, compiler)] + request_args(style, args, 0, root) + seq![
        request_path(style, cwd, root),
    ] + var_texts(key_vars(env))
}

/// A request is hashed as its texts are.
proof fn lemma_request_texts(
    style: PathStyle,
    compiler: Seq<char>,
    args: Seq<Seq<char>>,
    cwd: Seq<char>,
    root: Option<Seq<char>>,
    env: Seq<(Seq<char>, Seq<char>)>,
)
    ensures
        request_bytes(style, compiler, args, cwd, root, env) == fields(request_texts(style, compiler, args, cwd, root, env)),
{
    let tag = "zccache-request-v2"@;
    let c = key_form(style, compiler);
    let list = request_args(style, args, 0, root);
    let d = request_path(style, cwd, root);
    let vars = key_vars(env);
    lemma_vars_bytes(vars);
    lemma_fields_concat(seq![tag, c] + list + seq![d], var_texts(vars));
    lemma_fields_concat(seq![tag, c] + list, seq![d]);
    lemma_fields_concat(seq![tag, c], list);
    lemma_one_field(d);
    lemma_one_field(tag);
    lemma_one_field(c);
    lemma_fields_concat(seq![tag], seq![c]);
    assert(seq![tag, c] =~= seq![tag] + seq![c]);
}

/// One field.
proof fn lemma_one_field(s: Seq<char>)
    ensures
        fields(seq![s]) == field(s),
{
    reveal_with_fuel(fields, 2);
    assert(seq![s].drop_last() =~= Seq::<Seq<char>>::empty());
    assert(fields(seq![s]) =~= field(s));
}

/// Spelling a path for request keys brings no zero character in.
proof fn lemma_request_path_no_nul(style: PathStyle, path: Seq<char>, root: Option<Seq<char>>)
    requires
        no_nul(path),
    ensures
        no_nul(request_path(style, path, root)),
{
    reveal_strlit("$ZCCACHE_WORKTREE_ROOT");
    reveal_strlit("/");
    lemma_key_form_no_nul(style, path);
    if let Some(r) = root {
        if let Some(rest) = below(style, path, r) {
            lemma_below_no_nul(style, path, r);
            lemma_key_form_no_nul(style, rest);
        }
    }
}

/// The parts of a text without zero characters hold none.
proof fn lemma_concat_no_nul(a: Seq<char>, b: Seq<char>)
    ensures
        no_nul(a + b) <==> no_nul(a) && no_nul(b),
{
    let s = a + b;
    if no_nul(s) {
        assert forall|i: int| 0 <= i < a.len() implies #[trigger] a[i] != '\0' by {
            assert(s[i] == a[i]);
        }
        assert forall|i: int| 0 <= i < b.len() implies #[trigger] b[i] != '\0' by {
            assert(s[a.len() + i] == b[i]);
        }
    }
}

/// Spelling an argument for request keys brings no zero character in.
proof fn lemma_request_arg_no_nul(style: PathStyle, arg: Seq<char>, root: Option<Seq<char>>)
    requires
        no_nul(arg),
    ensures
        no_nul(request_arg(style, arg, root)),
        no_nul(request_detached(style, arg, root)),
{
    lemma_request_path_no_nul(style, arg, root);
    lemma_sides_no_nul(style, arg, root);
    if let Some(r) = root {
        if request_cc_mapping(style, arg, root) is Some {
            let (flag, from, to) = cc_mapping(arg)->0;
            lemma_mapping_read(arg, cc_flags());
            lemma_concat_no_nul(flag + "="@ + from + "="@, to);
            lemma_concat_no_nul(flag + "="@ + from, "="@);
            lemma_concat_no_nul(flag + "="@, from);
            lemma_request_path_no_nul(style, from, root);
        } else if without_prefix(arg, "--remap-path-prefix="@) is Some {
            let value = without_prefix(arg, "--remap-path-prefix="@)->0;
            lemma_after_prefix(arg, "--remap-path-prefix="@);
            lemma_concat_no_nul("--remap-path-prefix="@, value);
            lemma_sides_no_nul(style, value, root);
        } else if request_value(style, arg, root) is Some {
        } else if request_attached(style, arg, "-I"@, r) is Some {
            let rest = without_prefix(arg, "-I"@)->0;
            lemma_after_prefix(arg, "-I"@);
            lemma_concat_no_nul("-I"@, rest);
            lemma_request_path_no_nul(style, rest, root);
        } else if request_attached(style, arg, "-L"@, r) is Some {
            let rest = without_prefix(arg, "-L"@)->0;
            lemma_after_prefix(arg, "-L"@);
            lemma_concat_no_nul("-L"@, rest);
            lemma_request_path_no_nul(style, rest, root);
        }
    }
}

/// Spelling either side of a `=` brings no zero character in.
proof fn lemma_sides_no_nul(style: PathStyle, arg: Seq<char>, root: Option<Seq<char>>)
    requires
        no_nul(arg),
    ensures
        request_mapping(style, arg, root) matches Some(key) ==> no_nul(key),
        root matches Some(r) ==> (request_sides(style, arg, r) matches Some(key) ==> no_nul(key)),
{
    lemma_split_sides(arg);
    if let Some((left, right)) = split_once_at(arg, '=') {
        lemma_concat_no_nul(left + "="@, right);
        lemma_concat_no_nul(left, "="@);
        lemma_request_path_no_nul(style, left, root);
        lemma_request_path_no_nul(style, right, root);
        if let Some(r) = root {
            lemma_request_path_no_nul(style, left, Some(r));
            lemma_request_path_no_nul(style, right, Some(r));
        }
    }
}

/// The texts of a request hold no zero character.
proof fn lemma_request_texts_no_nul(
    style: PathStyle,
    compiler: Seq<char>,
    args: Seq<Seq<char>>,
    cwd: Seq<char>,
    root: Option<Seq<char>>,
    env: Seq<(Seq<char>, Seq<char>)>,
)
    requires
        no_nul(compiler),
        no_nuls(args),
        no_nul(cwd),
        no_nul_pairs(env),
    ensures
        no_nuls(request_texts(style, compiler, args, cwd, root, env)),
{
    let all = request_texts(style, compiler, args, cwd, root, env);
    let list = request_args(style, args, 0, root);
    let vars = key_vars(env);
    let n = list.len() as int;
    lemma_key_form_no_nul(style, compiler);
    lemma_request_path_no_nul(style, cwd, root);
    lemma_args_one_by_one(style, args, root);
    assert(no_nul("zccache-request-v2"@)) by {
        reveal_strlit("zccache-request-v2");
    }
    assert forall|j: int| 0 <= j < n implies no_nul(#[trigger] list[j]) by {
        assert(no_nul(args[j]));
        lemma_request_arg_no_nul(style, args[j], root);
    }
    assert forall|j: int| 0 <= j < vars.len() implies no_nul(#[trigger] var_texts(vars)[j]) by {
        reveal_strlit("=");
        assert(vars.contains(vars[j]));
        lemma_vars_that_count(env, vars[j].0, vars[j].1);
        let k = env.index_of(vars[j]);
        assert(env[k] == vars[j]);
    }
    assert forall|j: int| 0 <= j < all.len() implies no_nul(#[trigger] all[j]) by {
        if j < 2 {
        } else if j < 2 + n {
            assert(all[j] == list[j - 2]);
        } else if j > 2 + n {
            assert(all[j] == var_texts(vars)[j - 3 - n]);
        }
    }
}

/// Whether a working directory is no text that a variable could be: on Unix, where it is absolute;
/// on Windows, where it is spelled in lower case, always.
pub open spec fn no_variable(style: PathStyle, cwd: Seq<char>) -> bool {
    style == PathStyle::Windows || absolute(style, cwd)
}

/// The spelling of a working directory does not begin as a variable that counts does.
proof fn lemma_cwd_is_no_variable(style: PathStyle, cwd: Seq<char>, root: Option<Seq<char>>)
    requires
        no_variable(style, cwd),
    ensures
        !"CARGO_"@.is_prefix_of(request_path(style, cwd, root)),
{
    reveal_strlit("$ZCCACHE_WORKTREE_ROOT");
    reveal_strlit("CARGO_");
    let x = request_path(style, cwd, root);
    if "CARGO_"@.is_prefix_of(x) {
        assert(x.take(6)[0] == x[0]);
        assert(x[0] == 'C');
        if root is Some && below(style, cwd, root->0) is Some {
            assert(x[0] == '$');
        } else if style == PathStyle::Windows {
            assert(x[0] == ascii_lower(clean(style, cwd)[0]));
        } else {
            lemma_clean_keeps_parts(style, cwd);
            assert(x[0] == '/');
        }
    }
}

/// The bytes that a request fingerprint is the hash of determine the request: the compiler, every
/// argument in its place, the working directory, each as it is spelled, and every variable that
/// counts with its value.
pub proof fn lemma_request_bytes_determine(
    style: PathStyle,
    compiler_a: Seq<char>,
    compiler_b: Seq<char>,
    args_a: Seq<Seq<char>>,
    args_b: Seq<Seq<char>>,
    cwd_a: Seq<char>,
    cwd_b: Seq<char>,
    root_a: Option<Seq<char>>,
    root_b: Option<Seq<char>>,
    env_a: Seq<(Seq<char>, Seq<char>)>,
    env_b: Seq<(Seq<char>, Seq<char>)>,
)
    requires
        no_nul(compiler_a) && no_nuls(args_a) && no_nul(cwd_a) && no_nul_pairs(env_a),
        no_nul(compiler_b) && no_nuls(args_b) && no_nul(cwd_b) && no_nul_pairs(env_b),
        no_variable(style, cwd_a),
        no_variable(style, cwd_b),
        forall|i: int| 0 <= i < env_a.len() ==> no_equals((#[trigger] env_a[i]).0),
        forall|i: int| 0 <= i < env_b.len() ==> no_equals((#[trigger] env_b[i]).0),
        request_bytes(style, compiler_a, args_a, cwd_a, root_a, env_a) == request_bytes(
            style,
            compiler_b,
            args_b,
            cwd_b,
            root_b,
            env_b,
        ),
    ensures
        key_form(style, compiler_a) == key_form(style, compiler_b),
        request_args(style, args_a, 0, root_a) == request_args(style, args_b, 0, root_b),
        args_a.len() == args_b.len(),
        request_path(style, cwd_a, root_a) == request_path(style, cwd_b, root_b),
        key_vars(env_a) == key_vars(env_b),
{
    let s = request_texts(style, compiler_a, args_a, cwd_a, root_a, env_a);
    let t = request_texts(style, compiler_b, args_b, cwd_b, root_b, env_b);
    lemma_request_texts(style, compiler_a, args_a, cwd_a, root_a, env_a);
    lemma_request_texts(style, compiler_b, args_b, cwd_b, root_b, env_b);
    lemma_request_texts_no_nul(style, compiler_a, args_a, cwd_a, root_a, env_a);
    lemma_request_texts_no_nul(style, compiler_b, args_b, cwd_b, root_b, env_b);
    lemma_fields_determine(s, t);
    let a = request_args(style, args_a, 0, root_a);
    let b = request_args(style, args_b, 0, root_b);
    lemma_cwd_is_no_variable(style, cwd_a, root_a);
    lemma_cwd_is_no_variable(style, cwd_b, root_b);
    assert forall|j: int| 0 <= j < var_texts(key_vars(env_a)).len() implies "CARGO_"@.is_prefix_of(
        #[trigger] var_texts(key_vars(env_a))[j],
    ) by {
        lemma_var_begins(env_a, j);
    }
    assert forall|j: int| 0 <= j < var_texts(key_vars(env_b)).len() implies "CARGO_"@.is_prefix_of(
        #[trigger] var_texts(key_vars(env_b))[j],
    ) by {
        lemma_var_begins(env_b, j);
    }
    lemma_texts_cut(
        seq!["zccache-request-v2"@, key_form(style, compiler_a)],
        seq!["zccache-request-v2"@, key_form(style, compiler_b)],
        a,
        b,
        request_path(style, cwd_a, root_a),
        request_path(style, cwd_b, root_b),
        var_texts(key_vars(env_a)),
        var_texts(key_vars(env_b)),
    );
    lemma_args_one_by_one(style, args_a, root_a);
    lemma_args_one_by_one(style, args_b, root_b);
    lemma_vars_determined(env_a, env_b);
}

/// Texts that differ in kind are told apart where they stand one after the other.
proof fn lemma_texts_cut(
    head_a: Seq<Seq<char>>,
    head_b: Seq<Seq<char>>,
    a: Seq<Seq<char>>,
    b: Seq<Seq<char>>,
    d_a: Seq<char>,
    d_b: Seq<char>,
    v_a: Seq<Seq<char>>,
    v_b: Seq<Seq<char>>,
)
    requires
        head_a.len() == 2,
        head_b.len() == 2,
        head_a + a + seq![d_a] + v_a == head_b + b + seq![d_b] + v_b,
        !"CARGO_"@.is_prefix_of(d_a),
        !"CARGO_"@.is_prefix_of(d_b),
        forall|j: int| 0 <= j < v_a.len() ==> "CARGO_"@.is_prefix_of(#[trigger] v_a[j]),
        forall|j: int| 0 <= j < v_b.len() ==> "CARGO_"@.is_prefix_of(#[trigger] v_b[j]),
    ensures
        head_a[1] == head_b[1],
        a == b,
        d_a == d_b,
        v_a == v_b,
{
    let s = head_a + a + seq![d_a] + v_a;
    let t = head_b + b + seq![d_b] + v_b;
    let (na, nb) = (a.len() as int, b.len() as int);
    assert(s.len() == 3 + na + v_a.len());
    assert(t.len() == 3 + nb + v_b.len());
    assert(s == t);
    assert(s[2 + na] == d_a);
    assert(t[2 + nb] == d_b);
    if na < nb {
        assert(s[2 + nb] == v_a[nb - na - 1]);
    }
    if nb < na {
        assert(t[2 + na] == v_b[na - nb - 1]);
    }
    assert(s[1] == head_a[1] && t[1] == head_b[1]);
    assert(a =~= b) by {
        assert forall|j: int| 0 <= j < na implies a[j] == b[j] by {
            assert(s[2 + j] == a[j] && t[2 + j] == b[j]);
        }
    }
    assert(v_a.len() == v_b.len());
    assert(v_a =~= v_b) by {
        assert forall|j: int| 0 <= j < v_a.len() implies v_a[j] == v_b[j] by {
            assert(s[3 + na + j] == v_a[j] && t[3 + na + j] == v_b[j]);
        }
    }
}

/// Variables are determined by their texts.
proof fn lemma_vars_determined(env_a: Seq<(Seq<char>, Seq<char>)>, env_b: Seq<(Seq<char>, Seq<char>)>)
    requires
        forall|i: int| 0 <= i < env_a.len() ==> no_equals((#[trigger] env_a[i]).0),
        forall|i: int| 0 <= i < env_b.len() ==> no_equals((#[trigger] env_b[i]).0),
        var_texts(key_vars(env_a)) == var_texts(key_vars(env_b)),
    ensures
        key_vars(env_a) == key_vars(env_b),
{
    let va = key_vars(env_a);
    let vb = key_vars(env_b);
    assert(var_texts(va).len() == va.len() && var_texts(vb).len() == vb.len());
    assert forall|j: int| 0 <= j < va.len() implies va[j] == vb[j] by {
        assert(var_texts(va)[j] == var_texts(vb)[j]);
        assert(va.contains(va[j]) && vb.contains(vb[j]));
        lemma_vars_that_count(env_a, va[j].0, va[j].1);
        lemma_vars_that_count(env_b, vb[j].0, vb[j].1);
        assert(env_a[env_a.index_of(va[j])] == va[j]);
        assert(env_b[env_b.index_of(vb[j])] == vb[j]);
        lemma_split_equals(va[j].0, va[j].1);
        lemma_split_equals(vb[j].0, vb[j].1);
    }
    assert(va =~= vb);
}

/// A variable that counts begins as those of cargo do.
proof fn lemma_var_begins(env: Seq<(Seq<char>, Seq<char>)>, j: int)
    requires
        0 <= j < key_vars(env).len(),
    ensures
        "CARGO_"@.is_prefix_of(var_texts(key_vars(env))[j]),
{
    let v = key_vars(env)[j];
    assert(key_vars(env).contains(v));
    lemma_vars_that_count(env, v.0, v.1);
    let text = mapping_text(v.0, v.1);
    let n = "CARGO_"@.len() as int;
    assert(text.take(n) =~= v.0.take(n));
}

/// On Unix requests with one fingerprint are one request: the same compiler and working directory,
/// as many arguments, each argument that holds no path the same, each that gives a path in some
/// form naming the same file, and the same variables that count. (Unless two different inputs have
/// one hash.)
pub proof fn lemma_requests_told_apart(
    compiler_a: Seq<char>,
    compiler_b: Seq<char>,
    args_a: Seq<Seq<char>>,
    args_b: Seq<Seq<char>>,
    cwd_a: Seq<char>,
    cwd_b: Seq<char>,
    root: Option<Seq<char>>,
    env_a: Seq<(Seq<char>, Seq<char>)>,
    env_b: Seq<(Seq<char>, Seq<char>)>,
)
    requires
        no_nul(compiler_a) && no_nuls(args_a) && no_nul(cwd_a) && no_nul_pairs(env_a),
        no_nul(compiler_b) && no_nuls(args_b) && no_nul(cwd_b) && no_nul_pairs(env_b),
        absolute(PathStyle::Unix, cwd_a),
        absolute(PathStyle::Unix, cwd_b),
        root matches Some(r) ==> absolute(PathStyle::Unix, r),
        forall|i: int| 0 <= i < env_a.len() ==> no_equals((#[trigger] env_a[i]).0),
        forall|i: int| 0 <= i < env_b.len() ==> no_equals((#[trigger] env_b[i]).0),
        no_collision(
            request_bytes(PathStyle::Unix, compiler_a, args_a, cwd_a, root, env_a),
            request_bytes(PathStyle::Unix, compiler_b, args_b, cwd_b, root, env_b),
        ),
        blake3_hex(request_bytes(PathStyle::Unix, compiler_a, args_a, cwd_a, root, env_a)) == blake3_hex(
            request_bytes(PathStyle::Unix, compiler_b, args_b, cwd_b, root, env_b),
        ),
    ensures
        parts(PathStyle::Unix, compiler_a) == parts(PathStyle::Unix, compiler_b),
        parts(PathStyle::Unix, cwd_a) == parts(PathStyle::Unix, cwd_b),
        args_a.len() == args_b.len(),
        forall|i: int|
            #![trigger args_a[i]]
            #![trigger args_b[i]]
            0 <= i < args_a.len() && !is_value(args_a, i) && !is_value(args_b, i) && (root is None || (holds_no_path(
                PathStyle::Unix,
                args_a[i],
            ) && holds_no_path(PathStyle::Unix, args_b[i]))) ==> args_a[i] == args_b[i],
        root matches Some(r) ==> forall|i: int, form: Form, p: Seq<char>, q: Seq<char>|
            0 <= i < args_a.len() && !is_value(args_a, i) && !is_value(args_b, i) && #[trigger] gives(args_a, i, form, p)
                && #[trigger] gives(args_b, i, form, q) ==> parts(PathStyle::Unix, p) == parts(PathStyle::Unix, q),
        forall|v: (Seq<char>, Seq<char>)|
            "CARGO_"@.is_prefix_of(v.0) && v.0 != "CARGO_MAKEFLAGS"@ && v.0 != "CARGO_INCREMENTAL"@ && v.0 != "CARGO_MANIFEST_DIR"@
                && v.0 != "CARGO_MANIFEST_PATH"@ && v.0 != "CARGO_TARGET_DIR"@ ==> (#[trigger] env_a.contains(v)
                <==> env_b.contains(v)),
{
    let style = PathStyle::Unix;
    lemma_request_bytes_determine(style, compiler_a, compiler_b, args_a, args_b, cwd_a, cwd_b, root, root, env_a, env_b);
    lemma_clean_keeps_parts(style, compiler_a);
    lemma_clean_keeps_parts(style, compiler_b);
    lemma_request_path_determines(cwd_a, cwd_b, root);
    let a = request_args(style, args_a, 0, root);
    let b = request_args(style, args_b, 0, root);
    assert forall|i: int|
        #![trigger args_a[i]]
        #![trigger args_b[i]]
        0 <= i < args_a.len() && !is_value(args_a, i) && !is_value(args_b, i) && (root is None || (holds_no_path(style, args_a[i])
            && holds_no_path(style, args_b[i]))) implies args_a[i] == args_b[i] by {
        lemma_plain_args_stay(style, args_a, root, i);
        lemma_plain_args_stay(style, args_b, root, i);
        assert(a[i] == b[i]);
    }
    if let Some(r) = root {
        assert forall|i: int, form: Form, p: Seq<char>, q: Seq<char>|
            0 <= i < args_a.len() && !is_value(args_a, i) && !is_value(args_b, i) && #[trigger] gives(args_a, i, form, p)
                && #[trigger] gives(args_b, i, form, q) implies parts(PathStyle::Unix, p) == parts(PathStyle::Unix, q) by {
            lemma_args_one_by_one(style, args_a, root);
            lemma_args_one_by_one(style, args_b, root);
            lemma_not_the_flag(form, p);
            lemma_not_the_flag(form, q);
            assert(a[i] == request_arg(style, args_a[i], root));
            assert(b[i] == request_arg(style, args_b[i], root));
            lemma_path_args_told_apart(form, p, q, r);
        }
    }
    assert forall|v: (Seq<char>, Seq<char>)|
        "CARGO_"@.is_prefix_of(v.0) && v.0 != "CARGO_MAKEFLAGS"@ && v.0 != "CARGO_INCREMENTAL"@ && v.0 != "CARGO_MANIFEST_DIR"@
            && v.0 != "CARGO_MANIFEST_PATH"@ && v.0 != "CARGO_TARGET_DIR"@ implies (#[trigger] env_a.contains(v)
        <==> env_b.contains(v)) by {
        lemma_vars_that_count(env_a, v.0, v.1);
        lemma_vars_that_count(env_b, v.0, v.1);
    }
}

/// Whether an argument gives an absolute path in some form.
pub open spec fn gives(args: Seq<Seq<char>>, i: int, form: Form, path: Seq<char>) -> bool {
    &&& absolute(PathStyle::Unix, path)
    &&& form_fits(PathStyle::Unix, form, path)
    &&& args[i] == form_text(form, path)
}

/// An argument that gives a path is not the mapping flag that stands before its value.
proof fn lemma_not_the_flag(form: Form, path: Seq<char>)
    requires
        absolute(PathStyle::Unix, path),
    ensures
        form_text(form, path) != "--remap-path-prefix"@,
{
    reveal_strlit("--remap-path-prefix");
    let x = form_text(form, path);
    if x == "--remap-path-prefix"@ {
        assert(path[0] == '/');
        assert(x.contains('/')) by {
            lemma_form_holds(form, path);
        }
        let i = x.index_of('/');
        assert(x[i] == '/');
    }
}

/// The argument that gives a path holds every character of it.
proof fn lemma_form_holds(form: Form, path: Seq<char>)
    requires
        path.len() > 0,
    ensures
        form_text(form, path).contains(path[0]),
{
    let x = form_text(form, path);
    let n: int = match form {
        Form::Bare => 0,
        Form::Include => "-I"@.len() as int,
        Form::Library => "-L"@.len() as int,
        Form::CcMap(k, to) => (cc_flags()[k] + "="@).len() as int,
        Form::Remap(to) => "--remap-path-prefix="@.len() as int,
        Form::Named(name) => (name + "="@).len() as int,
    };
    assert(x[n] == path[0]);
}

} // verus!
