//! `--remap-path-prefix` on a Rust command line.

use vstd::prelude::*;
use crate::path::{
    absolute, file_stem, is_absolute, key_form, normalize_for_key, stem_of, NormalizedPath, PathStyle,
};
use crate::text::{concat2, same_text, split_once, split_once_at, starts_with, strip_prefix, views, without_prefix};

verus! {

/// Whether two paths have the same spelling in keys.
pub open spec fn same_key(style: PathStyle, a: Seq<char>, b: Seq<char>) -> bool {
    key_form(style, a) == key_form(style, b)
}

/// Whether two paths have the same spelling in keys.
pub fn same_key_path(style: PathStyle, left: &str, right: &str) -> (same: bool)
    ensures
        same == same_key(style, left@, right@),
{
    let a = normalize_for_key(style, left);
    let b = normalize_for_key(style, right);
    same_text(a.as_str(), b.as_str())
}

/// Whether the mapping `old=new` in `value` maps the directory `old`.
pub open spec fn remaps(style: PathStyle, value: Seq<char>, old: Seq<char>) -> bool {
    match split_once_at(value, '=') {
        Some((from, _)) => absolute(style, from) && same_key(style, from, old),
        None => false,
    }
}

/// Whether the mapping in `value` maps the directory `old`.
pub fn rust_remap_value_matches_old(style: PathStyle, value: &str, old: &str) -> (yes: bool)
    ensures
        yes == remaps(style, value@, old@),
{
    match split_once(value, '=') {
        Some((from, _)) => is_absolute(style, from.as_str()) && same_key_path(style, from.as_str(), old),
        None => false,
    }
}

/// Whether one of the mappings maps the directory `old`.
pub open spec fn values_remap(style: PathStyle, values: Seq<Seq<char>>, old: Seq<char>) -> bool {
    exists|i: int| 0 <= i < values.len() && remaps(style, #[trigger] values[i], old)
}

/// Whether one of the mappings maps the directory `old`.
pub fn rust_remap_values_have_old(style: PathStyle, values: &[String], old: &str) -> (yes: bool)
    ensures
        yes == values_remap(style, views(values@), old@),
{
    let mut i: usize = 0;
    while i < values.len()
        invariant
            i <= values@.len(),
            forall|j: int| 0 <= j < i ==> !remaps(style, #[trigger] views(values@)[j], old@),
        decreases values@.len() - i,
    {
        if rust_remap_value_matches_old(style, values[i].as_str(), old) {
            assert(remaps(style, views(values@)[i as int], old@));
            return true;
        }
        i = i + 1;
    }
    false
}

/// The mappings on a command line from position `i` on: each follows `--remap-path-prefix` as
/// the next argument, or behind `=` in the same one.
pub open spec fn remap_values(args: Seq<Seq<char>>, i: int) -> Seq<Seq<char>>
    decreases args.len() - i,
{
    if i < 0 || i >= args.len() {
        Seq::empty()
    } else if args[i] == "--remap-path-prefix"@ {
        if i + 1 < args.len() {
            seq![args[i + 1]] + remap_values(args, i + 2)
        } else {
            Seq::empty()
        }
    } else {
        (match without_prefix(args[i], "--remap-path-prefix="@) {
            Some(value) => seq![value],
            None => Seq::empty(),
        }) + remap_values(args, i + 1)
    }
}

/// Whether the command line maps the directory `old`.
pub open spec fn args_remap(style: PathStyle, args: Seq<Seq<char>>, old: Seq<char>) -> bool {
    values_remap(style, remap_values(args, 0), old)
}

/// A mapping in front counts with the others.
proof fn lemma_values_front(style: PathStyle, front: Seq<Seq<char>>, rest: Seq<Seq<char>>, old: Seq<char>)
    ensures
        values_remap(style, front + rest, old) <==> values_remap(style, front, old) || values_remap(style, rest, old),
{
    if values_remap(style, front, old) {
        let i = choose|i: int| 0 <= i < front.len() && remaps(style, #[trigger] front[i], old);
        assert(remaps(style, (front + rest)[i], old));
    }
    if values_remap(style, rest, old) {
        let i = choose|i: int| 0 <= i < rest.len() && remaps(style, #[trigger] rest[i], old);
        assert(remaps(style, (front + rest)[front.len() + i], old));
    }
    if values_remap(style, front + rest, old) {
        let i = choose|i: int| 0 <= i < (front + rest).len() && remaps(style, #[trigger] (front + rest)[i], old);
        if i < front.len() {
            assert(remaps(style, front[i], old));
        } else {
            assert(remaps(style, rest[i - front.len()], old));
        }
    }
}

/// Whether the command line maps the directory `old`.
pub fn rust_args_have_remap_for_old(style: PathStyle, args: &[String], old: &str) -> (yes: bool)
    ensures
        yes == args_remap(style, views(args@), old@),
{
    let ghost all = views(args@);
    let mut i: usize = 0;
    while i < args.len()
        invariant
            all == views(args@),
            i <= args@.len(),
            args_remap(style, all, old@) == values_remap(style, remap_values(all, i as int), old@),
        decreases args@.len() - i,
    {
        let arg = args[i].as_str();
        assert(all[i as int] == arg@);
        if same_text(arg, "--remap-path-prefix") {
            if args.len() - i > 1 {
                proof {
                    lemma_values_front(style, seq![all[i + 1]], remap_values(all, i + 2), old@);
                    assert(all[i + 1] == args@[i + 1]@);
                    assert(seq![all[i + 1]][0] == all[i + 1]);
                }
                if rust_remap_value_matches_old(style, args[i + 1].as_str(), old) {
                    assert(values_remap(style, seq![all[i + 1]], old@));
                    return true;
                }
                assert(!values_remap(style, seq![all[i + 1]], old@));
                i = i + 2;
            } else {
                return false;
            }
        } else {
            match strip_prefix(arg, "--remap-path-prefix=") {
                Some(value) => {
                    proof {
                        lemma_values_front(style, seq![value@], remap_values(all, i + 1), old@);
                        assert(seq![value@][0] == value@);
                    }
                    if rust_remap_value_matches_old(style, value.as_str(), old) {
                        assert(values_remap(style, seq![value@], old@));
                        return true;
                    }
                    assert(!values_remap(style, seq![value@], old@));
                },
                None => {
                    assert(Seq::<Seq<char>>::empty() + remap_values(all, i + 1) =~= remap_values(all, i + 1));
                },
            }
            i = i + 1;
        }
    }
    assert(!values_remap(style, Seq::<Seq<char>>::empty(), old@));
    false
}

/// How many leading arguments are the path of `rustc` itself. A driver that wraps `rustc` takes
/// that path as its first argument, and only there, so nothing may be put before it.
pub open spec fn shim_len(style: PathStyle, args: Seq<Seq<char>>) -> nat {
    if args.len() > 0 && stem_of(style, args[0]) == Some("rustc"@) {
        1
    } else {
        0
    }
}

/// How many leading arguments are the path of `rustc` itself: none or one.
pub fn rustc_workspace_wrapper_shim_len(style: PathStyle, args: &[String]) -> (len: usize)
    ensures
        len == shim_len(style, views(args@)),
{
    if args.len() == 0 {
        return 0;
    }
    assert(views(args@)[0] == args@[0]@);
    match file_stem(style, args[0].as_str()) {
        Some(stem) => if same_text(stem.as_str(), "rustc") {
            1
        } else {
            0
        },
        None => 0,
    }
}

/// The root that a Rust request key is relative to: the worktree root, where the command line
/// maps it, so that the output does not show it.
pub open spec fn rustc_root(style: PathStyle, args: Seq<Seq<char>>, root: Option<Seq<char>>) -> Option<Seq<char>> {
    match root {
        Some(r) => if args_remap(style, args, r) {
            Some(r)
        } else {
            None
        },
        None => None,
    }
}

/// The root that a Rust request key is relative to.
pub fn rustc_request_key_root(style: PathStyle, args: &[String], worktree_root: Option<&NormalizedPath>) -> (root: Option<
    NormalizedPath,
>)
    ensures
        crate::path::opt_path_view(root) == rustc_root(style, views(args@), match worktree_root {
            Some(r) => Some(r@),
            None => None,
        }),
{
    match worktree_root {
        Some(r) => if rust_args_have_remap_for_old(style, args, r.as_str()) {
            Some(r.clone())
        } else {
            None
        },
        None => None,
    }
}

/// The root that a Rust context key is relative to: the worktree root, where one of the mappings
/// maps it.
pub open spec fn context_root(style: PathStyle, values: Seq<Seq<char>>, root: Option<Seq<char>>) -> Option<Seq<char>> {
    match root {
        Some(r) => if values_remap(style, values, r) {
            Some(r)
        } else {
            None
        },
        None => None,
    }
}

/// The root that a Rust context key is relative to: the worktree root, where one of the mappings
/// maps it.
pub fn rustc_context_key_root(
    style: PathStyle,
    remap_path_prefixes: &[String],
    worktree_root: Option<&NormalizedPath>,
) -> (root: Option<NormalizedPath>)
    ensures
        crate::path::opt_path_view(root) == context_root(style, views(remap_path_prefixes@), match worktree_root {
            Some(r) => Some(r@),
            None => None,
        }),
{
    match worktree_root {
        Some(r) => if rust_remap_values_have_old(style, remap_path_prefixes, r.as_str()) {
            Some(r.clone())
        } else {
            None
        },
        None => None,
    }
}

// ── Whether the root is hidden ──────────────────────────────────────────

/// Whether the mappings hide the worktree root, and what is wrong where they do not.
#[derive(Clone, Copy, Debug, PartialEq, Eq, Structural)]
pub enum RustRemapGate {
    /// One maps the root.
    Pass,
    /// None maps the root, and those there are map directories below it.
    Missing,
    /// None maps the root, and one maps a directory outside it.
    OldOutsideRoot,
    /// None maps the root, and one is malformed.
    Malformed,
}

impl RustRemapGate {
    /// The tag that diagnostics show.
    pub fn as_str(self) -> (tag: &'static str)
        ensures
            tag@ == (match self {
                RustRemapGate::Pass => "rust_remap_gate_ok"@,
                RustRemapGate::Missing => "rust_remap_missing"@,
                RustRemapGate::OldOutsideRoot => "rust_remap_old_outside_root"@,
                RustRemapGate::Malformed => "rust_remap_malformed"@,
            }),
    {
        match self {
            RustRemapGate::Pass => "rust_remap_gate_ok",
            RustRemapGate::Missing => "rust_remap_missing",
            RustRemapGate::OldOutsideRoot => "rust_remap_old_outside_root",
            RustRemapGate::Malformed => "rust_remap_malformed",
        }
    }
}

/// Whether a mapping has no `=`, or does not map an absolute path.
pub open spec fn malformed(style: PathStyle, value: Seq<char>) -> bool {
    match split_once_at(value, '=') {
        Some((old, _)) => !absolute(style, old),
        None => true,
    }
}

/// Whether a mapping maps a directory that is neither `root` nor spelled below it.
pub open spec fn outside_root(style: PathStyle, value: Seq<char>, root: Seq<char>) -> bool {
    match split_once_at(value, '=') {
        Some((old, _)) => absolute(style, old) && key_form(style, old) != key_form(style, root) && !(key_form(style, root)
            + "/"@).is_prefix_of(key_form(style, old)),
        None => false,
    }
}

/// What the mappings come to.
pub open spec fn gate(style: PathStyle, values: Seq<Seq<char>>, root: Option<Seq<char>>) -> RustRemapGate {
    match root {
        None => RustRemapGate::Missing,
        Some(r) => if values_remap(style, values, r) {
            RustRemapGate::Pass
        } else if exists|i: int| 0 <= i < values.len() && malformed(style, #[trigger] values[i]) {
            RustRemapGate::Malformed
        } else if exists|i: int| 0 <= i < values.len() && outside_root(style, #[trigger] values[i], r) {
            RustRemapGate::OldOutsideRoot
        } else {
            RustRemapGate::Missing
        },
    }
}

/// What the mappings come to.
pub fn rust_remap_gate(style: PathStyle, remap_path_prefixes: &[String], worktree_root: Option<&NormalizedPath>) -> (g:
    RustRemapGate)
    ensures
        g == gate(style, views(remap_path_prefixes@), match worktree_root {
            Some(r) => Some(r@),
            None => None,
        }),
{
    let root = match worktree_root {
        Some(r) => r,
        None => {
            return RustRemapGate::Missing;
        },
    };
    let ghost values = views(remap_path_prefixes@);
    let root_key = normalize_for_key(style, root.as_str());
    let child_prefix = concat2(root_key.as_str(), "/");
    let mut saw_malformed = false;
    let mut saw_external = false;
    let mut i: usize = 0;
    while i < remap_path_prefixes.len()
        invariant
            i <= remap_path_prefixes@.len(),
            values == views(remap_path_prefixes@),
            root_key@ == key_form(style, root@),
            child_prefix@ == root_key@ + "/"@,
            worktree_root == Some(root),
            forall|j: int| 0 <= j < i ==> !remaps(style, #[trigger] values[j], root@),
            saw_malformed == exists|j: int| 0 <= j < i && malformed(style, #[trigger] values[j]),
            saw_external == exists|j: int| 0 <= j < i && outside_root(style, #[trigger] values[j], root@),
        decreases remap_path_prefixes@.len() - i,
    {
        let value = remap_path_prefixes[i].as_str();
        assert(values[i as int] == value@);
        let ghost malformed0 = saw_malformed;
        let ghost external0 = saw_external;
        match split_once(value, '=') {
            Some((old_dir, _)) => {
                if !is_absolute(style, old_dir.as_str()) {
                    saw_malformed = true;
                    assert(malformed(style, values[i as int]));
                } else {
                    let old_key = normalize_for_key(style, old_dir.as_str());
                    if same_text(old_key.as_str(), root_key.as_str()) {
                        assert(remaps(style, values[i as int], root@));
                        return RustRemapGate::Pass;
                    }
                    if !starts_with(old_key.as_str(), child_prefix.as_str()) {
                        saw_external = true;
                        assert(outside_root(style, values[i as int], root@));
                    }
                }
            },
            None => {
                saw_malformed = true;
                assert(malformed(style, values[i as int]));
            },
        }
        proof {
            if malformed0 {
                let j = choose|j: int| 0 <= j < i && malformed(style, #[trigger] values[j]);
                assert(0 <= j < i + 1 && malformed(style, values[j]));
            }
            if external0 {
                let j = choose|j: int| 0 <= j < i && outside_root(style, #[trigger] values[j], root@);
                assert(0 <= j < i + 1 && outside_root(style, values[j], root@));
            }
        }
        i = i + 1;
    }
    if saw_malformed {
        RustRemapGate::Malformed
    } else if saw_external {
        RustRemapGate::OldOutsideRoot
    } else {
        RustRemapGate::Missing
    }
}

/// The mappings pass exactly where one maps the root, and then a context key may be relative to
/// the root.
pub proof fn lemma_gate_agrees_with_key_root(style: PathStyle, values: Seq<Seq<char>>, root: Seq<char>)
    ensures
        gate(style, values, Some(root)) == RustRemapGate::Pass <==> values_remap(style, values, root),
        gate(style, values, None) == RustRemapGate::Missing,
{
}

} // verus!
