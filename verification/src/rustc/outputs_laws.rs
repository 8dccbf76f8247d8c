//! Which files are taken for the outputs of a compilation, by their names.

use vstd::prelude::*;
use super::depinfo::depfile;
use super::outputs::{
    collected, emitted_file, emitted_name, expected_outputs, extension_fits, has_name, inferred, name_or_empty,
    output_probes, overridden, slot, with_given, with_kinds, with_output, OutputView,
};
use super::{emit_views, explicit_path, RustcParsedArgs};
use crate::path::{clean, extension_of, joined_path, lemma_join_name, name_of, parts, same, PathStyle};
use crate::probe::{kind_at, size_at, FileKind, Probe};
use crate::text::views;

verus! {

// ── What the arguments say ──────────────────────────────────────────────

/// The name of a crate's files without prefix and extension: the crate's name, `unknown` where none
/// is given, and the extra file name, where one is given.
pub open spec fn stem(args: RustcParsedArgs) -> Seq<char> {
    (match args.crate_name {
        Some(name) => name@,
        None => "unknown"@,
    }) + (match args.extra_filename {
        Some(suffix) => suffix@,
        None => Seq::empty(),
    })
}

/// The directory that outputs go to: the one that is given, or the working directory.
pub open spec fn out_dir(args: RustcParsedArgs, cwd: Seq<char>) -> Seq<char> {
    match args.out_dir {
        Some(dir) => dir@,
        None => cwd,
    }
}

/// A file of the crate in its output directory.
pub open spec fn out_file(style: PathStyle, args: RustcParsedArgs, cwd: Seq<char>, prefix: Seq<char>, ext: Seq<char>) -> Seq<char> {
    joined_path(style, out_dir(args, cwd), prefix + stem(args) + ext)
}

/// Whether this kind of output is asked for.
pub open spec fn asked(args: RustcParsedArgs, kind: Seq<char>) -> bool {
    views(args.emit_types@).contains(kind)
}

/// The stem is what the file names are made of.
proof fn lemma_stem(args: RustcParsedArgs)
    ensures
        super::outputs::base_name(args) == stem(args),
{
    reveal_strlit("");
    assert(super::outputs::base_name(args) =~= stem(args));
}

/// The path given for a kind of output is the first one, and there is none where no pair has the
/// kind.
pub proof fn lemma_explicit_path(list: Seq<(Seq<char>, Seq<char>)>, kind: Seq<char>)
    ensures
        match explicit_path(list, kind) {
            Some(path) => exists|i: int|
                0 <= i < list.len() && #[trigger] list[i] == (kind, path) && forall|j: int|
                    0 <= j < i ==> (#[trigger] list[j]).0 != kind,
            None => forall|j: int| 0 <= j < list.len() ==> (#[trigger] list[j]).0 != kind,
        },
    decreases list.len(),
{
    if list.len() > 0 {
        if list[0].0 == kind {
            assert(list[0] == (kind, list[0].1));
        } else {
            let rest = list.drop_first();
            lemma_explicit_path(rest, kind);
            match explicit_path(rest, kind) {
                Some(path) => {
                    let i = choose|i: int|
                        0 <= i < rest.len() && #[trigger] rest[i] == (kind, path) && forall|j: int|
                            0 <= j < i ==> (#[trigger] rest[j]).0 != kind;
                    assert(list[i + 1] == (kind, path));
                    assert forall|j: int| 0 <= j < i + 1 implies (#[trigger] list[j]).0 != kind by {
                        if j > 0 {
                            assert(rest[j - 1] == list[j]);
                        }
                    }
                },
                None => {
                    assert forall|j: int| 0 <= j < list.len() implies (#[trigger] list[j]).0 != kind by {
                        if j > 0 {
                            assert(rest[j - 1] == list[j]);
                        }
                    }
                },
            }
        }
    }
}

/// Dependency information is written where `dep-info` is asked for, and only there: to the path
/// given for it, or to the file with the crate's name and `.d` in the output directory.
pub proof fn lemma_depfile(style: PathStyle, args: RustcParsedArgs, cwd: Seq<char>)
    ensures
        depfile(style, args, cwd) is Some <==> asked(args, "dep-info"@),
        depfile(style, args, cwd) matches Some(path) ==> path == (match explicit_path(
            emit_views(args.explicit_emit_paths@),
            "dep-info"@,
        ) {
            Some(given) => given,
            None => out_file(style, args, cwd, Seq::empty(), ".d"@),
        }),
{
    lemma_stem(args);
    assert(Seq::<char>::empty() + stem(args) + ".d"@ =~= stem(args) + ".d"@);
}

/// All paths that decide on the outputs are looked at: the primary one, the crate's files in the
/// output directory, and every path that is given.
pub proof fn lemma_output_probes(style: PathStyle, args: RustcParsedArgs, primary: Seq<char>, cwd: Seq<char>)
    ensures
        ({
            let all = output_probes(style, args, primary, cwd);
            &&& all.contains(primary)
            &&& all.contains(out_file(style, args, cwd, "lib"@, ".rmeta"@))
            &&& all.contains(out_file(style, args, cwd, "lib"@, ".rlib"@))
            &&& all.contains(out_file(style, args, cwd, "lib"@, ".a"@))
            &&& all.contains(out_file(style, args, cwd, Seq::empty(), ".d"@))
            &&& forall|k: int|
                0 <= k < args.explicit_emit_paths@.len() ==> all.contains((#[trigger] args.explicit_emit_paths@[k]).1@)
        }),
{
    let all = output_probes(style, args, primary, cwd);
    lemma_stem(args);
    reveal_strlit("");
    assert(""@ =~= Seq::<char>::empty());
    assert(all[0] == primary);
    assert(all[1] == out_file(style, args, cwd, "lib"@, ".rmeta"@));
    assert(all[2] == out_file(style, args, cwd, "lib"@, ".rlib"@));
    assert(all[3] == out_file(style, args, cwd, "lib"@, ".a"@));
    assert(all[4] == out_file(style, args, cwd, Seq::empty(), ".d"@));
    assert forall|k: int| 0 <= k < args.explicit_emit_paths@.len() implies all.contains(
        (#[trigger] args.explicit_emit_paths@[k]).1@,
    ) by {
        assert(all[5 + k] == args.explicit_emit_paths@[k].1@);
    }
}

// ── Outputs found ───────────────────────────────────────────────────────

/// Paths that are the same have one file name.
proof fn lemma_same_name(style: PathStyle, a: Seq<char>, b: Seq<char>)
    requires
        same(style, a, b),
    ensures
        name_or_empty(style, a) == name_or_empty(style, b),
{
    let p = parts(style, a);
    let q = parts(style, b);
    if p.len() > 0 {
        assert(crate::path::same_part(style, p[p.len() - 1], q[q.len() - 1]));
    }
}

/// An output that is there stays, and every other one keeps its place.
proof fn lemma_output_added(style: PathStyle, outputs: Seq<OutputView>, path: Seq<char>, probes: Seq<Probe>)
    ensures
        outputs.is_prefix_of(with_output(style, outputs, path, probes)),
        kind_at(probes, path) == FileKind::File ==> has_name(with_output(style, outputs, path, probes), name_or_empty(style, path)),
{
    let out = with_output(style, outputs, path, probes);
    assert(outputs =~= out.take(outputs.len() as int));
    if kind_at(probes, path) == FileKind::File && !has_name(outputs, name_or_empty(style, path)) {
        assert(out[out.len() - 1].name == name_or_empty(style, path));
    }
}

/// A name that some of the outputs has is still there when more follow.
proof fn lemma_name_stays(a: Seq<OutputView>, b: Seq<OutputView>, name: Seq<char>)
    requires
        a.is_prefix_of(b),
        has_name(a, name),
    ensures
        has_name(b, name),
{
    let i = choose|i: int| 0 <= i < a.len() && (#[trigger] a[i]).name == name;
    assert(b.take(a.len() as int)[i] == b[i]);
    assert(b[i].name == name);
}

/// What stands in front of a longer list stands in front of one longer still.
proof fn lemma_prefix_of_prefix<A>(a: Seq<A>, b: Seq<A>, c: Seq<A>)
    requires
        a.is_prefix_of(b),
        b.is_prefix_of(c),
    ensures
        a.is_prefix_of(c),
{
    assert(c.take(a.len() as int) =~= b.take(a.len() as int));
}

/// What each kind of output that is asked for adds.
proof fn lemma_kinds_added(
    style: PathStyle,
    args: RustcParsedArgs,
    primary: Seq<char>,
    cwd: Seq<char>,
    start: Seq<OutputView>,
    kinds: Seq<Seq<char>>,
    probes: Seq<Probe>,
    kind: Seq<char>,
)
    ensures
        ({
            let out = with_kinds(style, args, primary, cwd, start, kinds, probes);
            &&& start.is_prefix_of(out)
            &&& kinds.contains(kind) ==> (emitted_file(style, args, primary, cwd, kind, probes) matches Some(path) ==> kind_at(
                probes,
                path,
            ) == FileKind::File ==> has_name(out, name_or_empty(style, path)))
        }),
    decreases kinds.len(),
{
    let out = with_kinds(style, args, primary, cwd, start, kinds, probes);
    if kinds.len() == 0 {
        assert(start =~= start.take(start.len() as int));
    } else {
        let init = kinds.drop_last();
        let before = with_kinds(style, args, primary, cwd, start, init, probes);
        lemma_kinds_added(style, args, primary, cwd, start, init, probes, kind);
        match emitted_file(style, args, primary, cwd, kinds.last(), probes) {
            Some(path) => {
                lemma_output_added(style, before, path, probes);
            },
            None => {
                assert(before =~= before.take(before.len() as int));
            },
        }
        assert(before.is_prefix_of(out));
        lemma_prefix_of_prefix(start, before, out);
        if kinds.contains(kind) {
            let i = kinds.index_of(kind);
            if i < init.len() {
                assert(init[i] == kind);
                if let Some(path) = emitted_file(style, args, primary, cwd, kind, probes) {
                    if kind_at(probes, path) == FileKind::File {
                        lemma_name_stays(before, out, name_or_empty(style, path));
                    }
                }
            }
        }
    }
}

/// What each path that is given adds.
proof fn lemma_given_added(
    style: PathStyle,
    primary: Seq<char>,
    start: Seq<OutputView>,
    given: Seq<(Seq<char>, Seq<char>)>,
    probes: Seq<Probe>,
    k: int,
)
    ensures
        ({
            let out = with_given(style, primary, start, given, probes);
            &&& start.is_prefix_of(out)
            &&& 0 <= k < given.len() && !same(style, given[k].1, primary) && kind_at(probes, given[k].1) == FileKind::File
                ==> has_name(out, name_or_empty(style, given[k].1))
        }),
    decreases given.len(),
{
    let out = with_given(style, primary, start, given, probes);
    if given.len() == 0 {
        assert(start =~= start.take(start.len() as int));
    } else {
        let init = given.drop_last();
        let before = with_given(style, primary, start, init, probes);
        lemma_given_added(style, primary, start, init, probes, k);
        lemma_output_added(style, before, given.last().1, probes);
        assert(before =~= before.take(before.len() as int));
        assert(before.is_prefix_of(out));
        lemma_prefix_of_prefix(start, before, out);
        if 0 <= k < init.len() && !same(style, given[k].1, primary) && kind_at(probes, given[k].1) == FileKind::File {
            assert(init[k] == given[k]);
            lemma_name_stays(before, out, name_or_empty(style, given[k].1));
        }
    }
}

/// What comes of the primary output, of the kinds that are asked for, and of the paths given.
proof fn lemma_collected_from(
    style: PathStyle,
    args: RustcParsedArgs,
    primary: Seq<char>,
    cwd: Seq<char>,
    probes: Seq<Probe>,
    kind: Seq<char>,
    k: int,
)
    requires
        kind_at(probes, primary) != FileKind::Missing,
    ensures
        ({
            let out = collected(style, args, primary, cwd, probes);
            let given = emit_views(args.explicit_emit_paths@);
            &&& out.len() > 0
            &&& out[0] == OutputView {
                name: name_or_empty(style, primary),
                path: clean(style, primary),
                size: size_at(probes, primary),
            }
            &&& asked(args, kind) ==> (emitted_file(style, args, primary, cwd, kind, probes) matches Some(path) ==> kind_at(
                probes,
                path,
            ) == FileKind::File ==> has_name(out, name_or_empty(style, path)))
            &&& 0 <= k < given.len() && !same(style, given[k].1, primary) && kind_at(probes, given[k].1) == FileKind::File
                ==> has_name(out, name_or_empty(style, given[k].1))
        }),
{
    let first = OutputView {
        name: name_or_empty(style, primary),
        path: clean(style, primary),
        size: size_at(probes, primary),
    };
    let start = seq![first];
    let given = emit_views(args.explicit_emit_paths@);
    let kinds = views(args.emit_types@);
    let mid = with_kinds(style, args, primary, cwd, start, kinds, probes);
    let out = collected(style, args, primary, cwd, probes);
    lemma_kinds_added(style, args, primary, cwd, start, kinds, probes, kind);
    lemma_given_added(style, primary, mid, given, probes, k);
    lemma_prefix_of_prefix(start, mid, out);
    assert(out.take(1)[0] == out[0]);
    if asked(args, kind) {
        if let Some(path) = emitted_file(style, args, primary, cwd, kind, probes) {
            if kind_at(probes, path) == FileKind::File {
                lemma_name_stays(mid, out, name_or_empty(style, path));
            }
        }
    }
}

/// Nothing is collected without the primary output; with it, the primary output comes first, as
/// what it is.
pub proof fn lemma_primary_is_collected(style: PathStyle, args: RustcParsedArgs, primary: Seq<char>, cwd: Seq<char>, probes: Seq<Probe>)
    ensures
        kind_at(probes, primary) == FileKind::Missing ==> collected(style, args, primary, cwd, probes).len() == 0,
        kind_at(probes, primary) != FileKind::Missing ==> collected(style, args, primary, cwd, probes).len() > 0 && collected(
            style,
            args,
            primary,
            cwd,
            probes,
        )[0] == (OutputView {
            name: match name_of(style, primary) {
                Some(name) => name,
                None => Seq::empty(),
            },
            path: clean(style, primary),
            size: size_at(probes, primary),
        }),
{
    reveal_strlit("");
    if kind_at(probes, primary) != FileKind::Missing {
        lemma_collected_from(style, args, primary, cwd, probes, Seq::empty(), -1);
        assert(""@ =~= Seq::<char>::empty());
    }
}

/// The files that a compilation was asked to write are collected where they are there, the primary
/// output being there: for metadata the `.rmeta`, for dependency information the `.d`, for linking
/// the `.rlib` (and the static library where there is no `.rlib` besides the primary output), each
/// by the crate's name in the output directory; and every file at a path that was given.
pub proof fn lemma_emitted_files_are_collected(
    style: PathStyle,
    args: RustcParsedArgs,
    primary: Seq<char>,
    cwd: Seq<char>,
    probes: Seq<Probe>,
)
    requires
        kind_at(probes, primary) != FileKind::Missing,
    ensures
        ({
            let out = collected(style, args, primary, cwd, probes);
            let rmeta = out_file(style, args, cwd, "lib"@, ".rmeta"@);
            let rlib = out_file(style, args, cwd, "lib"@, ".rlib"@);
            let archive = out_file(style, args, cwd, "lib"@, ".a"@);
            let deps = out_file(style, args, cwd, Seq::empty(), ".d"@);
            let given = emit_views(args.explicit_emit_paths@);
            &&& asked(args, "metadata"@) && kind_at(probes, rmeta) == FileKind::File ==> has_name(out, name_or_empty(style, rmeta))
            &&& asked(args, "dep-info"@) && kind_at(probes, deps) == FileKind::File ==> has_name(out, name_or_empty(style, deps))
            &&& asked(args, "link"@) && kind_at(probes, rlib) == FileKind::File ==> has_name(out, name_or_empty(style, rlib))
            &&& asked(args, "link"@) && kind_at(probes, archive) == FileKind::File && (kind_at(probes, rlib) == FileKind::Missing
                || same(style, rlib, primary)) ==> has_name(out, name_or_empty(style, archive))
            &&& forall|k: int|
                0 <= k < given.len() && kind_at(probes, (#[trigger] given[k]).1) == FileKind::File ==> has_name(
                    out,
                    name_or_empty(style, given[k].1),
                )
        }),
{
    let out = collected(style, args, primary, cwd, probes);
    let rmeta = out_file(style, args, cwd, "lib"@, ".rmeta"@);
    let rlib = out_file(style, args, cwd, "lib"@, ".rlib"@);
    let archive = out_file(style, args, cwd, "lib"@, ".a"@);
    let deps = out_file(style, args, cwd, Seq::empty(), ".d"@);
    let given = emit_views(args.explicit_emit_paths@);
    lemma_stem(args);
    reveal_strlit("");
    reveal_strlit("metadata");
    reveal_strlit("link");
    reveal_strlit("dep-info");
    assert(""@ =~= Seq::<char>::empty());
    assert("metadata"@.len() == 8 && "link"@.len() == 4 && "dep-info"@.len() == 8 && "dep-info"@[0] != "metadata"@[0]);
    lemma_collected_from(style, args, primary, cwd, probes, "metadata"@, -1);
    lemma_collected_from(style, args, primary, cwd, probes, "dep-info"@, -1);
    lemma_collected_from(style, args, primary, cwd, probes, "link"@, -1);
    assert(has_name(out, name_or_empty(style, primary))) by {
        assert(out[0].name == name_or_empty(style, primary));
    }
    if same(style, rmeta, primary) {
        lemma_same_name(style, rmeta, primary);
    }
    if same(style, rlib, primary) {
        lemma_same_name(style, rlib, primary);
    }
    if same(style, archive, primary) {
        lemma_same_name(style, archive, primary);
    }
    assert forall|k: int| 0 <= k < given.len() && kind_at(probes, (#[trigger] given[k]).1) == FileKind::File implies has_name(
        out,
        name_or_empty(style, given[k].1),
    ) by {
        if same(style, given[k].1, primary) {
            lemma_same_name(style, given[k].1, primary);
        } else {
            lemma_collected_from(style, args, primary, cwd, probes, Seq::empty(), k);
        }
    }
}

/// On Unix the outputs that are asked for are collected by the very names that `rustc` gives them.
pub proof fn lemma_outputs_have_their_names(args: RustcParsedArgs, primary: Seq<char>, cwd: Seq<char>, probes: Seq<Probe>)
    requires
        kind_at(probes, primary) != FileKind::Missing,
        !stem(args).contains('/'),
    ensures
        ({
            let style = PathStyle::Unix;
            let out = collected(style, args, primary, cwd, probes);
            let dir = out_dir(args, cwd);
            &&& asked(args, "metadata"@) && kind_at(probes, joined_path(style, dir, "lib"@ + stem(args) + ".rmeta"@))
                == FileKind::File ==> has_name(out, "lib"@ + stem(args) + ".rmeta"@)
            &&& asked(args, "link"@) && kind_at(probes, joined_path(style, dir, "lib"@ + stem(args) + ".rlib"@)) == FileKind::File
                ==> has_name(out, "lib"@ + stem(args) + ".rlib"@)
            &&& asked(args, "link"@) && kind_at(probes, joined_path(style, dir, "lib"@ + stem(args) + ".a"@)) == FileKind::File
                && kind_at(probes, joined_path(style, dir, "lib"@ + stem(args) + ".rlib"@)) == FileKind::Missing ==> has_name(
                out,
                "lib"@ + stem(args) + ".a"@,
            )
            &&& asked(args, "dep-info"@) && stem(args).len() > 0 && kind_at(probes, joined_path(style, dir, stem(args) + ".d"@))
                == FileKind::File ==> has_name(out, stem(args) + ".d"@)
        }),
{
    let style = PathStyle::Unix;
    let dir = out_dir(args, cwd);
    lemma_emitted_files_are_collected(style, args, primary, cwd, probes);
    reveal_strlit("lib");
    reveal_strlit(".rmeta");
    reveal_strlit(".rlib");
    reveal_strlit(".a");
    reveal_strlit(".d");
    let e = "lib"@ + stem(args) + ".a"@;
    lemma_slash_free(stem(args), "lib"@, ".a"@);
    assert(e.len() > 2);
    lemma_join_name(dir, e);
    let a = "lib"@ + stem(args) + ".rmeta"@;
    let b = "lib"@ + stem(args) + ".rlib"@;
    let c = stem(args) + ".d"@;
    assert(Seq::<char>::empty() + stem(args) + ".d"@ =~= c);
    lemma_slash_free(stem(args), "lib"@, ".rmeta"@);
    lemma_slash_free(stem(args), "lib"@, ".rlib"@);
    lemma_slash_free(stem(args), Seq::empty(), ".d"@);
    assert(a.len() > 2 && b.len() > 2 && (stem(args).len() > 0 ==> c.len() > 2));
    lemma_join_name(dir, a);
    lemma_join_name(dir, b);
    if stem(args).len() > 0 {
        lemma_join_name(dir, c);
    }
}

/// Putting texts without a slash together brings none in.
proof fn lemma_slash_free(name: Seq<char>, front: Seq<char>, back: Seq<char>)
    requires
        !name.contains('/'),
        !front.contains('/'),
        !back.contains('/'),
    ensures
        !(front + name + back).contains('/'),
{
    let s = front + name + back;
    if s.contains('/') {
        let i = s.index_of('/');
        if i < front.len() {
            assert(front[i] == '/');
        } else if i < front.len() + name.len() {
            assert(name[i - front.len()] == '/');
        } else {
            assert(back[i - front.len() - name.len()] == '/');
        }
    }
}

/// Whether an output is the file at a path.
pub open spec fn is_file_at(style: PathStyle, output: OutputView, path: Seq<char>, probes: Seq<Probe>) -> bool {
    &&& kind_at(probes, path) == FileKind::File
    &&& output.name == name_or_empty(style, path)
    &&& output.path == clean(style, path)
    &&& output.size == size_at(probes, path)
}

/// Whether an output is one that a compilation is asked for besides the primary one.
pub open spec fn is_asked_for(
    style: PathStyle,
    args: RustcParsedArgs,
    cwd: Seq<char>,
    output: OutputView,
    probes: Seq<Probe>,
) -> bool {
    ||| asked(args, "metadata"@) && is_file_at(style, output, out_file(style, args, cwd, "lib"@, ".rmeta"@), probes)
    ||| asked(args, "link"@) && is_file_at(style, output, out_file(style, args, cwd, "lib"@, ".rlib"@), probes)
    ||| asked(args, "link"@) && is_file_at(style, output, out_file(style, args, cwd, "lib"@, ".a"@), probes)
    ||| asked(args, "dep-info"@) && is_file_at(style, output, out_file(style, args, cwd, Seq::empty(), ".d"@), probes)
    ||| exists|k: int|
        0 <= k < args.explicit_emit_paths@.len() && is_file_at(style, output, (#[trigger] args.explicit_emit_paths@[k]).1@, probes)
}

/// Whether all but the first outputs are asked for.
spec fn rest_asked_for(style: PathStyle, args: RustcParsedArgs, cwd: Seq<char>, out: Seq<OutputView>, probes: Seq<Probe>) -> bool {
    forall|i: int| 1 <= i < out.len() ==> is_asked_for(style, args, cwd, #[trigger] out[i], probes)
}

/// Adding an output that is asked for adds no other.
proof fn lemma_add_asked(
    style: PathStyle,
    args: RustcParsedArgs,
    cwd: Seq<char>,
    outputs: Seq<OutputView>,
    path: Seq<char>,
    probes: Seq<Probe>,
)
    requires
        rest_asked_for(style, args, cwd, outputs, probes),
        forall|o: OutputView| is_file_at(style, o, path, probes) ==> #[trigger] is_asked_for(style, args, cwd, o, probes),
    ensures
        rest_asked_for(style, args, cwd, with_output(style, outputs, path, probes), probes),
{
    let out = with_output(style, outputs, path, probes);
    assert forall|i: int| 1 <= i < out.len() implies is_asked_for(style, args, cwd, #[trigger] out[i], probes) by {
        if i < outputs.len() {
            assert(out[i] == outputs[i]);
        } else {
            assert(is_file_at(style, out[i], path, probes));
        }
    }
}

/// The kinds add only what is asked for.
proof fn lemma_kinds_asked(
    style: PathStyle,
    args: RustcParsedArgs,
    primary: Seq<char>,
    cwd: Seq<char>,
    start: Seq<OutputView>,
    kinds: Seq<Seq<char>>,
    probes: Seq<Probe>,
)
    requires
        start.len() == 1,
        forall|i: int| 0 <= i < kinds.len() ==> asked(args, #[trigger] kinds[i]),
    ensures
        rest_asked_for(style, args, cwd, with_kinds(style, args, primary, cwd, start, kinds, probes), probes),
    decreases kinds.len(),
{
    if kinds.len() > 0 {
        let init = kinds.drop_last();
        assert forall|i: int| 0 <= i < init.len() implies asked(args, #[trigger] init[i]) by {
            assert(init[i] == kinds[i]);
        }
        lemma_kinds_asked(style, args, primary, cwd, start, init, probes);
        assert(asked(args, kinds[kinds.len() - 1]));
        lemma_stem(args);
        reveal_strlit("");
        assert(""@ =~= Seq::<char>::empty());
        if let Some(path) = emitted_file(style, args, primary, cwd, kinds.last(), probes) {
            let before = with_kinds(style, args, primary, cwd, start, init, probes);
            lemma_add_asked(style, args, cwd, before, path, probes);
        }
    }
}

/// The given paths add only what is asked for.
proof fn lemma_given_asked(
    style: PathStyle,
    args: RustcParsedArgs,
    primary: Seq<char>,
    cwd: Seq<char>,
    start: Seq<OutputView>,
    given: Seq<(Seq<char>, Seq<char>)>,
    probes: Seq<Probe>,
)
    requires
        rest_asked_for(style, args, cwd, start, probes),
        given.is_prefix_of(emit_views(args.explicit_emit_paths@)),
    ensures
        rest_asked_for(style, args, cwd, with_given(style, primary, start, given, probes), probes),
    decreases given.len(),
{
    if given.len() > 0 {
        let all = emit_views(args.explicit_emit_paths@);
        let init = given.drop_last();
        let n = given.len() as int;
        assert(all.take(init.len() as int) =~= init) by {
            assert(all.take(n) == given);
        }
        lemma_given_asked(style, args, primary, cwd, start, init, probes);
        let path = given.last().1;
        assert(path == args.explicit_emit_paths@[n - 1].1@) by {
            assert(all.take(n)[n - 1] == given[n - 1]);
        }
        assert forall|o: OutputView| is_file_at(style, o, path, probes) implies #[trigger] is_asked_for(style, args, cwd, o, probes) by {
            assert(is_file_at(style, o, args.explicit_emit_paths@[n - 1].1@, probes));
        }
        lemma_add_asked(style, args, cwd, with_given(style, primary, start, init, probes), path, probes);
    }
}

/// Every output that is collected besides the primary one is a regular file that was asked for, by
/// the crate's name in the output directory or by a path that was given, under its own name and
/// with its own size.
pub proof fn lemma_collected_files_are_asked_for(
    style: PathStyle,
    args: RustcParsedArgs,
    primary: Seq<char>,
    cwd: Seq<char>,
    probes: Seq<Probe>,
    i: int,
)
    requires
        1 <= i < collected(style, args, primary, cwd, probes).len(),
    ensures
        is_asked_for(style, args, cwd, collected(style, args, primary, cwd, probes)[i], probes),
{
    let first = OutputView {
        name: name_or_empty(style, primary),
        path: clean(style, primary),
        size: size_at(probes, primary),
    };
    let kinds = views(args.emit_types@);
    let given = emit_views(args.explicit_emit_paths@);
    let mid = with_kinds(style, args, primary, cwd, seq![first], kinds, probes);
    assert forall|j: int| 0 <= j < kinds.len() implies asked(args, #[trigger] kinds[j]) by {}
    lemma_kinds_asked(style, args, primary, cwd, seq![first], kinds, probes);
    assert(given.take(given.len() as int) =~= given);
    lemma_given_asked(style, args, primary, cwd, mid, given, probes);
    assert(collected(style, args, primary, cwd, probes) == with_given(style, primary, mid, given, probes));
}

/// Outputs come in the order in which they are asked for: what one more kind adds follows what the
/// kinds before it added, and what one more given path adds follows that.
pub proof fn lemma_outputs_in_order(
    style: PathStyle,
    args: RustcParsedArgs,
    primary: Seq<char>,
    cwd: Seq<char>,
    start: Seq<OutputView>,
    kinds: Seq<Seq<char>>,
    kind: Seq<char>,
    given: Seq<(Seq<char>, Seq<char>)>,
    pair: (Seq<char>, Seq<char>),
    probes: Seq<Probe>,
)
    ensures
        with_kinds(style, args, primary, cwd, start, kinds, probes).is_prefix_of(
            with_kinds(style, args, primary, cwd, start, kinds.push(kind), probes),
        ),
        with_given(style, primary, start, given, probes).is_prefix_of(
            with_given(style, primary, start, given.push(pair), probes),
        ),
{
    let a = with_kinds(style, args, primary, cwd, start, kinds, probes);
    let b = with_given(style, primary, start, given, probes);
    assert(kinds.push(kind).drop_last() =~= kinds);
    assert(given.push(pair).drop_last() =~= given);
    assert(a =~= a.take(a.len() as int));
    assert(b =~= b.take(b.len() as int));
    if let Some(path) = emitted_file(style, args, primary, cwd, kind, probes) {
        lemma_output_added(style, a, path, probes);
    }
    lemma_output_added(style, b, pair.1, probes);
}

/// What is collected by the paths given follows what is collected by the kinds asked for, and that
/// follows the primary output.
pub proof fn lemma_given_come_last(style: PathStyle, args: RustcParsedArgs, primary: Seq<char>, cwd: Seq<char>, probes: Seq<Probe>)
    requires
        kind_at(probes, primary) != FileKind::Missing,
    ensures
        ({
            let first = OutputView {
                name: name_or_empty(style, primary),
                path: clean(style, primary),
                size: size_at(probes, primary),
            };
            with_kinds(style, args, primary, cwd, seq![first], views(args.emit_types@), probes).is_prefix_of(
                collected(style, args, primary, cwd, probes),
            )
        }),
{
    let first = OutputView {
        name: name_or_empty(style, primary),
        path: clean(style, primary),
        size: size_at(probes, primary),
    };
    let mid = with_kinds(style, args, primary, cwd, seq![first], views(args.emit_types@), probes);
    lemma_given_added(style, primary, mid, emit_views(args.explicit_emit_paths@), probes, -1);
}

// ── Expected outputs ────────────────────────────────────────────────────

/// The file name that an output of this kind has by the crate's name; `None` where the crate's name
/// does not tell.
pub open spec fn told_name(args: RustcParsedArgs, kind: Seq<char>) -> Option<Seq<char>> {
    if kind == "metadata"@ {
        Some("lib"@ + stem(args) + ".rmeta"@)
    } else {
        match told_extension(kind) {
            Some(ext) => Some(stem(args) + "."@ + ext),
            None => None,
        }
    }
}

/// The extension of an output of this kind, but of metadata and of what is linked.
pub open spec fn told_extension(kind: Seq<char>) -> Option<Seq<char>> {
    if kind == "dep-info"@ {
        Some("d"@)
    } else if kind == "obj"@ {
        Some("o"@)
    } else if kind == "asm"@ {
        Some("s"@)
    } else if kind == "llvm-ir"@ {
        Some("ll"@)
    } else if kind == "llvm-bc"@ || kind == "bitcode"@ {
        Some("bc"@)
    } else if kind == "mir"@ {
        Some("mir"@)
    } else {
        None
    }
}

/// The names of outputs.
proof fn lemma_told_name(args: RustcParsedArgs, kind: Seq<char>)
    ensures
        emitted_name(args, kind) == told_name(args, kind),
{
    lemma_stem(args);
    reveal_strlit(".");
    reveal_strlit("d");
    reveal_strlit(".d");
    reveal_strlit("o");
    reveal_strlit(".o");
    reveal_strlit("s");
    reveal_strlit(".s");
    reveal_strlit("ll");
    reveal_strlit(".ll");
    reveal_strlit("bc");
    reveal_strlit(".bc");
    reveal_strlit("mir");
    reveal_strlit(".mir");
    let s = stem(args);
    assert(s + "."@ + "d"@ =~= s + ".d"@);
    assert(s + "."@ + "o"@ =~= s + ".o"@);
    assert(s + "."@ + "s"@ =~= s + ".s"@);
    assert(s + "."@ + "ll"@ =~= s + ".ll"@);
    assert(s + "."@ + "bc"@ =~= s + ".bc"@);
    assert(s + "."@ + "mir"@ =~= s + ".mir"@);
}

/// What the kinds that are asked for lead to, and that they lead to nothing else.
proof fn lemma_inferred(style: PathStyle, args: RustcParsedArgs, cwd: Seq<char>, first: Seq<char>, kinds: Seq<Seq<char>>, x: Seq<char>)
    ensures
        inferred(style, args, cwd, first, kinds).len() > 0,
        inferred(style, args, cwd, first, kinds)[0] == first,
        inferred(style, args, cwd, first, kinds).contains(x) <==> x == first || exists|i: int|
            0 <= i < kinds.len() && told_path(style, args, cwd, #[trigger] kinds[i], x),
        inferred(style, args, cwd, first, kinds).no_duplicates(),
    decreases kinds.len(),
{
    let now = inferred(style, args, cwd, first, kinds);
    if kinds.len() == 0 {
        if x == first {
            assert(now[0] == x);
        }
    } else {
        let init = kinds.drop_last();
        let kind = kinds.last();
        let before = inferred(style, args, cwd, first, init);
        lemma_inferred(style, args, cwd, first, init, x);
        lemma_told_name(args, kind);
        assert(kinds[kinds.len() - 1] == kind);
        assert(now.contains(x) <==> before.contains(x) || told_path(style, args, cwd, kind, x)) by {
            if now.contains(x) {
                let i = now.index_of(x);
                if i < before.len() {
                    assert(before[i] == x);
                }
            }
            if before.contains(x) {
                assert(now[before.index_of(x)] == x);
            }
            if told_path(style, args, cwd, kind, x) && !before.contains(x) {
                assert(now[now.len() - 1] == x);
            }
        }
        if exists|i: int| 0 <= i < kinds.len() && told_path(style, args, cwd, #[trigger] kinds[i], x) {
            let i = choose|i: int| 0 <= i < kinds.len() && told_path(style, args, cwd, #[trigger] kinds[i], x);
            if i < init.len() {
                assert(told_path(style, args, cwd, init[i], x));
            }
        }
        if exists|i: int| 0 <= i < init.len() && told_path(style, args, cwd, #[trigger] init[i], x) {
            let i = choose|i: int| 0 <= i < init.len() && told_path(style, args, cwd, #[trigger] init[i], x);
            assert(told_path(style, args, cwd, kinds[i], x));
        }
        if told_path(style, args, cwd, kind, x) {
            assert(told_path(style, args, cwd, kinds[kinds.len() - 1], x));
        }
        assert(now.no_duplicates()) by {
            assert forall|i: int, j: int| 0 <= i < now.len() && 0 <= j < now.len() && i != j implies now[i] != now[j] by {
                if i < before.len() {
                    assert(before.contains(before[i]));
                }
                if j < before.len() {
                    assert(before.contains(before[j]));
                }
            }
        }
    }
}

/// Expected outputs come in the order in which they are asked for.
pub proof fn lemma_expected_in_order(
    style: PathStyle,
    args: RustcParsedArgs,
    cwd: Seq<char>,
    first: Seq<char>,
    kinds: Seq<Seq<char>>,
    kind: Seq<char>,
)
    ensures
        inferred(style, args, cwd, first, kinds).is_prefix_of(inferred(style, args, cwd, first, kinds.push(kind))),
{
    let a = inferred(style, args, cwd, first, kinds);
    assert(kinds.push(kind).drop_last() =~= kinds);
    assert(a =~= a.take(a.len() as int));
    let b = inferred(style, args, cwd, first, kinds.push(kind));
    assert(b.take(a.len() as int) =~= a);
}

/// Whether an output of this kind, which is given no path of its own, is written to this path.
pub open spec fn told_path(style: PathStyle, args: RustcParsedArgs, cwd: Seq<char>, kind: Seq<char>, path: Seq<char>) -> bool {
    &&& explicit_path(emit_views(args.explicit_emit_paths@), kind) is None
    &&& told_name(args, kind) matches Some(name) && path == clean(style, joined_path(style, out_dir(args, cwd), name))
}

/// Where no path is given, the expected outputs are the primary one, first, and one for each kind
/// that is asked for and whose name the crate's name tells, in the output directory; each once, and
/// no others.
pub proof fn lemma_expected_by_name(style: PathStyle, args: RustcParsedArgs, primary: Seq<char>, cwd: Seq<char>, path: Seq<char>)
    requires
        args.explicit_emit_paths@.len() == 0,
    ensures
        ({
            let out = expected_outputs(style, args, primary, cwd);
            &&& out.len() > 0
            &&& out[0] == clean(style, primary)
            &&& out.no_duplicates()
            &&& out.contains(path) <==> path == clean(style, primary) || exists|i: int|
                0 <= i < args.emit_types@.len() && (told_name(args, (#[trigger] args.emit_types@[i])@) matches Some(name) && path
                    == clean(style, joined_path(style, out_dir(args, cwd), name)))
        }),
{
    let given = emit_views(args.explicit_emit_paths@);
    let kinds = views(args.emit_types@);
    lemma_inferred(style, args, cwd, clean(style, primary), kinds, path);
    assert forall|kind: Seq<char>| #[trigger] explicit_path(given, kind) is None by {}
    if exists|i: int| 0 <= i < kinds.len() && told_path(style, args, cwd, #[trigger] kinds[i], path) {
        let i = choose|i: int| 0 <= i < kinds.len() && told_path(style, args, cwd, #[trigger] kinds[i], path);
        assert(kinds[i] == args.emit_types@[i]@);
    }
    if exists|i: int|
        0 <= i < args.emit_types@.len() && (told_name(args, (#[trigger] args.emit_types@[i])@) matches Some(name) && path == clean(
            style,
            joined_path(style, out_dir(args, cwd), name),
        )) {
        let i = choose|i: int|
            0 <= i < args.emit_types@.len() && (told_name(args, (#[trigger] args.emit_types@[i])@) matches Some(name) && path
                == clean(style, joined_path(style, out_dir(args, cwd), name)));
        assert(told_path(style, args, cwd, kinds[i], path));
    }
}

/// Whether an output of this kind could have this extension.
pub open spec fn could_have(kind: Seq<char>, ext: Option<Seq<char>>) -> bool {
    if kind == "metadata"@ {
        ext == Some("rmeta"@)
    } else if kind == "link"@ {
        ext == Some("rlib"@) || ext == Some("a"@) || ext == Some("exe"@) || ext is None
    } else {
        told_extension(kind) is Some && ext == told_extension(kind)
    }
}

/// Where a given path goes.
proof fn lemma_slot(style: PathStyle, paths: Seq<Seq<char>>, kind: Seq<char>)
    ensures
        0 <= slot(style, paths, kind) <= paths.len(),
        forall|i: int| 0 <= i < slot(style, paths, kind) ==> !could_have(kind, extension_of(style, #[trigger] paths[i])),
        slot(style, paths, kind) < paths.len() ==> could_have(kind, extension_of(style, paths[slot(style, paths, kind)])),
    decreases paths.len(),
{
    if paths.len() > 0 {
        assert(extension_fits(kind, extension_of(style, paths[0])) == could_have(kind, extension_of(style, paths[0])));
        if !extension_fits(kind, extension_of(style, paths[0])) {
            let rest = paths.drop_first();
            lemma_slot(style, rest, kind);
            assert forall|i: int| 0 <= i < slot(style, paths, kind) implies !could_have(
                kind,
                extension_of(style, #[trigger] paths[i]),
            ) by {
                if i > 0 {
                    assert(rest[i - 1] == paths[i]);
                }
            }
        }
    }
}

/// What the given paths change: a path stays in its place unless a given kind could have its
/// extension, the last one given is there, and each that is there was there or is given.
proof fn lemma_overridden(style: PathStyle, start: Seq<Seq<char>>, given: Seq<(Seq<char>, Seq<char>)>)
    ensures
        ({
            let out = overridden(style, start, given);
            &&& out.len() >= start.len()
            &&& forall|i: int|
                0 <= i < start.len() && (forall|k: int|
                    0 <= k < given.len() ==> !could_have((#[trigger] given[k]).0, extension_of(style, start[i]))) ==> #[trigger] out[i]
                    == start[i]
            &&& given.len() > 0 ==> out.contains(given.last().1)
            &&& forall|i: int|
                0 <= i < out.len() ==> start.contains(#[trigger] out[i]) || exists|k: int|
                    0 <= k < given.len() && (#[trigger] given[k]).1 == out[i]
        }),
    decreases given.len(),
{
    let out = overridden(style, start, given);
    if given.len() == 0 {
        assert forall|i: int| 0 <= i < out.len() implies start.contains(#[trigger] out[i]) by {
            assert(start[i] == out[i]);
        }
    } else {
        let init = given.drop_last();
        let before = overridden(style, start, init);
        let (kind, path) = given.last();
        let at = slot(style, before, kind);
        assert(given[given.len() - 1] == (kind, path));
        lemma_overridden(style, start, init);
        lemma_slot(style, before, kind);
        assert forall|i: int|
            0 <= i < start.len() && (forall|k: int|
                0 <= k < given.len() ==> !could_have((#[trigger] given[k]).0, extension_of(style, start[i]))) implies #[trigger] out[i]
            == start[i] by {
            assert forall|k: int| 0 <= k < init.len() implies !could_have((#[trigger] init[k]).0, extension_of(style, start[i])) by {
                assert(init[k] == given[k]);
            }
            assert(before[i] == start[i]);
            assert(!could_have(given[given.len() - 1].0, extension_of(style, start[i])));
            assert(at != i);
        }
        assert(out.contains(path)) by {
            if at < before.len() {
                assert(out[at] == path);
            } else if !before.contains(path) {
                assert(out[out.len() - 1] == path);
            }
        }
        assert forall|i: int| 0 <= i < out.len() implies start.contains(#[trigger] out[i]) || exists|k: int|
            0 <= k < given.len() && (#[trigger] given[k]).1 == out[i] by {
            if out[i] == path {
                assert(given[given.len() - 1].1 == out[i]);
            } else {
                assert(before[i] == out[i]);
                if !start.contains(before[i]) {
                    let k = choose|k: int| 0 <= k < init.len() && (#[trigger] init[k]).1 == before[i];
                    assert(given[k] == init[k]);
                }
            }
        }
    }
}

/// Where paths are given, the last of them is expected; the first output, the one that is linked,
/// stays first unless a given kind could have its extension; and every output that is expected is
/// the linked one, a given one, or one that the crate's name tells.
pub proof fn lemma_expected_by_path(style: PathStyle, args: RustcParsedArgs, primary: Seq<char>, cwd: Seq<char>)
    ensures
        ({
            let out = expected_outputs(style, args, primary, cwd);
            let given = emit_views(args.explicit_emit_paths@);
            let first = match explicit_path(given, "link"@) {
                Some(path) => path,
                None => clean(style, primary),
            };
            &&& out.len() > 0
            &&& given.len() > 0 ==> out.contains(given.last().1)
            &&& (forall|k: int| 0 <= k < given.len() ==> !could_have((#[trigger] given[k]).0, extension_of(style, first))) ==> out[0]
                == first
            &&& forall|j: int|
                0 <= j < out.len() ==> (#[trigger] out[j]) == first || (exists|k: int|
                    0 <= k < given.len() && (#[trigger] given[k]).1 == out[j]) || (exists|i: int|
                    0 <= i < args.emit_types@.len() && told_path(style, args, cwd, (#[trigger] args.emit_types@[i])@, out[j]))
        }),
{
    let out = expected_outputs(style, args, primary, cwd);
    let given = emit_views(args.explicit_emit_paths@);
    let kinds = views(args.emit_types@);
    let first = match explicit_path(given, "link"@) {
        Some(path) => path,
        None => clean(style, primary),
    };
    let start = inferred(style, args, cwd, first, kinds);
    lemma_inferred(style, args, cwd, first, kinds, first);
    lemma_overridden(style, start, given);
    assert(start[0] == first);
    assert forall|j: int| 0 <= j < out.len() implies (#[trigger] out[j]) == first || (exists|k: int|
        0 <= k < given.len() && (#[trigger] given[k]).1 == out[j]) || (exists|i: int|
        0 <= i < args.emit_types@.len() && told_path(style, args, cwd, (#[trigger] args.emit_types@[i])@, out[j])) by {
        if start.contains(out[j]) && out[j] != first {
            lemma_inferred(style, args, cwd, first, kinds, out[j]);
            let i = choose|i: int| 0 <= i < kinds.len() && told_path(style, args, cwd, #[trigger] kinds[i], out[j]);
            assert(told_path(style, args, cwd, args.emit_types@[i]@, out[j]));
        }
    }
}

/// An output that the crate's name tells is expected even where other paths are given, unless one
/// of those kinds could have its extension.
pub proof fn lemma_expected_by_both(style: PathStyle, args: RustcParsedArgs, primary: Seq<char>, cwd: Seq<char>, i: int, path: Seq<char>)
    requires
        0 <= i < args.emit_types@.len(),
        told_path(style, args, cwd, args.emit_types@[i]@, path),
        forall|k: int|
            0 <= k < args.explicit_emit_paths@.len() ==> !could_have(
                (#[trigger] args.explicit_emit_paths@[k]).0@,
                extension_of(style, path),
            ),
    ensures
        expected_outputs(style, args, primary, cwd).contains(path),
{
    let given = emit_views(args.explicit_emit_paths@);
    let kinds = views(args.emit_types@);
    let first = match explicit_path(given, "link"@) {
        Some(p) => p,
        None => clean(style, primary),
    };
    let start = inferred(style, args, cwd, first, kinds);
    assert(told_path(style, args, cwd, kinds[i], path));
    lemma_inferred(style, args, cwd, first, kinds, path);
    lemma_overridden(style, start, given);
    let j = start.index_of(path);
    assert forall|k: int| 0 <= k < given.len() implies !could_have((#[trigger] given[k]).0, extension_of(style, start[j])) by {
        assert(!could_have(args.explicit_emit_paths@[k].0@, extension_of(style, path)));
    }
    assert(overridden(style, start, given)[j] == start[j]);
}

} // verus!
