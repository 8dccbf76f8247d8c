//! The files that `rustc` writes.

use vstd::prelude::*;
use super::{crate_name_of, emit_views, explicit_path, out_dir_of, suffix_of, RustcParsedArgs};
use crate::path::{
    clean, contains_path, extension, extension_of, file_name, join, joined_path, name_of, path_views, same, same_path,
    NormalizedPath, PathStyle,
};
use crate::probe::{found_kind, found_size, kind_at, size_at, FileKind, Probe};
use crate::text::{concat2, concat3, same_text, views};

verus! {

// ── Names ───────────────────────────────────────────────────────────────

/// The name of a crate's files, without prefix and extension.
pub open spec fn base_name(args: RustcParsedArgs) -> Seq<char> {
    crate_name_of(args) + suffix_of(args)
}

/// The file that `--emit` of this kind writes; `None` where its name does not follow from the
/// crate's name alone.
pub open spec fn emitted_name(args: RustcParsedArgs, kind: Seq<char>) -> Option<Seq<char>> {
    if kind == "metadata"@ {
        Some("lib"@ + base_name(args) + ".rmeta"@)
    } else if kind == "dep-info"@ {
        Some(base_name(args) + ".d"@)
    } else if kind == "obj"@ {
        Some(base_name(args) + ".o"@)
    } else if kind == "asm"@ {
        Some(base_name(args) + ".s"@)
    } else if kind == "llvm-ir"@ {
        Some(base_name(args) + ".ll"@)
    } else if kind == "llvm-bc"@ || kind == "bitcode"@ {
        Some(base_name(args) + ".bc"@)
    } else if kind == "mir"@ {
        Some(base_name(args) + ".mir"@)
    } else {
        None
    }
}

/// Whether `--emit` of this kind writes a file with this extension.
pub open spec fn extension_fits(kind: Seq<char>, ext: Option<Seq<char>>) -> bool {
    if kind == "metadata"@ {
        ext == Some("rmeta"@)
    } else if kind == "link"@ {
        ext == Some("rlib"@) || ext == Some("a"@) || ext == Some("exe"@) || ext is None
    } else if kind == "dep-info"@ {
        ext == Some("d"@)
    } else if kind == "obj"@ {
        ext == Some("o"@)
    } else if kind == "asm"@ {
        ext == Some("s"@)
    } else if kind == "llvm-ir"@ {
        ext == Some("ll"@)
    } else if kind == "llvm-bc"@ || kind == "bitcode"@ {
        ext == Some("bc"@)
    } else if kind == "mir"@ {
        ext == Some("mir"@)
    } else {
        false
    }
}

/// The name of a crate's files, without prefix and extension.
fn base_text(args: &RustcParsedArgs) -> (name: String)
    ensures
        name@ == base_name(*args),
{
    concat2(args.crate_name_or_unknown(), args.file_suffix())
}

/// The file that `--emit` of this kind writes.
fn emitted(args: &RustcParsedArgs, kind: &str) -> (name: Option<String>)
    ensures
        crate::text::opt_view(name) == emitted_name(*args, kind@),
{
    let base = base_text(args);
    let b = base.as_str();
    if same_text(kind, "metadata") {
        Some(concat3("lib", b, ".rmeta"))
    } else if same_text(kind, "dep-info") {
        Some(concat2(b, ".d"))
    } else if same_text(kind, "obj") {
        Some(concat2(b, ".o"))
    } else if same_text(kind, "asm") {
        Some(concat2(b, ".s"))
    } else if same_text(kind, "llvm-ir") {
        Some(concat2(b, ".ll"))
    } else if same_text(kind, "llvm-bc") || same_text(kind, "bitcode") {
        Some(concat2(b, ".bc"))
    } else if same_text(kind, "mir") {
        Some(concat2(b, ".mir"))
    } else {
        None
    }
}

/// Whether the extension is this one.
fn ext_is(ext: &Option<String>, text: &str) -> (yes: bool)
    ensures
        yes == (crate::text::opt_view(*ext) == Some(text@)),
{
    match ext {
        Some(e) => same_text(e.as_str(), text),
        None => false,
    }
}

/// Whether `--emit` of this kind writes a file with this extension.
fn fits(kind: &str, ext: &Option<String>) -> (yes: bool)
    ensures
        yes == extension_fits(kind@, crate::text::opt_view(*ext)),
{
    if same_text(kind, "metadata") {
        ext_is(ext, "rmeta")
    } else if same_text(kind, "link") {
        ext_is(ext, "rlib") || ext_is(ext, "a") || ext_is(ext, "exe") || ext.is_none()
    } else if same_text(kind, "dep-info") {
        ext_is(ext, "d")
    } else if same_text(kind, "obj") {
        ext_is(ext, "o")
    } else if same_text(kind, "asm") {
        ext_is(ext, "s")
    } else if same_text(kind, "llvm-ir") {
        ext_is(ext, "ll")
    } else if same_text(kind, "llvm-bc") || same_text(kind, "bitcode") {
        ext_is(ext, "bc")
    } else if same_text(kind, "mir") {
        ext_is(ext, "mir")
    } else {
        false
    }
}

// ── Expected outputs ────────────────────────────────────────────────────

/// `paths` with `path` at the end, unless it is there.
pub open spec fn with_path(paths: Seq<Seq<char>>, path: Seq<char>) -> Seq<Seq<char>> {
    if paths.contains(path) {
        paths
    } else {
        paths.push(path)
    }
}

/// Appends `path`, unless it is there.
pub fn push_unique_output_path(paths: &mut Vec<NormalizedPath>, path: NormalizedPath)
    ensures
        path_views(final(paths)@) == with_path(path_views(old(paths)@), path@),
{
    if !contains_path(paths, &path) {
        let ghost paths0 = paths@;
        paths.push(path);
        assert(path_views(paths@) =~= path_views(paths0).push(path@));
    }
}

/// The outputs after those of `kinds` that are given no path of their own.
pub open spec fn inferred(
    style: PathStyle,
    args: RustcParsedArgs,
    cwd: Seq<char>,
    first: Seq<char>,
    kinds: Seq<Seq<char>>,
) -> Seq<Seq<char>>
    decreases kinds.len(),
{
    if kinds.len() == 0 {
        seq![first]
    } else {
        let before = inferred(style, args, cwd, first, kinds.drop_last());
        let kind = kinds.last();
        if explicit_path(emit_views(args.explicit_emit_paths@), kind) is Some {
            before
        } else {
            match emitted_name(args, kind) {
                Some(name) => with_path(before, clean(style, joined_path(style, out_dir_of(args, cwd), name))),
                None => before,
            }
        }
    }
}

/// The position of the first path that `--emit` of this kind could write, or the number of paths.
pub open spec fn slot(style: PathStyle, paths: Seq<Seq<char>>, kind: Seq<char>) -> int
    decreases paths.len(),
{
    if paths.len() == 0 || extension_fits(kind, extension_of(style, paths[0])) {
        0
    } else {
        1 + slot(style, paths.drop_first(), kind)
    }
}

/// The outputs with the paths that were given: each takes the place of the path it could be, or
/// comes at the end.
pub open spec fn overridden(style: PathStyle, start: Seq<Seq<char>>, given: Seq<(Seq<char>, Seq<char>)>) -> Seq<Seq<char>>
    decreases given.len(),
{
    if given.len() == 0 {
        start
    } else {
        let before = overridden(style, start, given.drop_last());
        let (kind, path) = given.last();
        if slot(style, before, kind) < before.len() {
            before.update(slot(style, before, kind), path)
        } else {
            with_path(before, path)
        }
    }
}

/// The outputs that a compilation is expected to write. The first is what it is asked to link, or
/// the primary output, whose name the crate's name does not tell.
pub open spec fn expected_outputs(style: PathStyle, args: RustcParsedArgs, primary: Seq<char>, cwd: Seq<char>) -> Seq<
    Seq<char>,
> {
    let given = emit_views(args.explicit_emit_paths@);
    let first = match explicit_path(given, "link"@) {
        Some(path) => path,
        None => clean(style, primary),
    };
    overridden(style, inferred(style, args, cwd, first, views(args.emit_types@)), given)
}

/// The position of the first path that `--emit` of this kind could write.
fn find_slot(style: PathStyle, paths: &[NormalizedPath], kind: &str) -> (at: usize)
    ensures
        at == slot(style, path_views(paths@), kind@),
        at <= paths@.len(),
{
    let ghost all = path_views(paths@);
    let mut i: usize = 0;
    assert(all.skip(0) =~= all);
    while i < paths.len()
        invariant
            i <= paths@.len(),
            all == path_views(paths@),
            slot(style, all, kind@) == i + slot(style, all.skip(i as int), kind@),
        decreases paths@.len() - i,
    {
        assert(all.skip(i as int)[0] == paths@[i as int]@);
        let ext = extension(style, paths[i].as_str());
        if fits(kind, &ext) {
            return i;
        }
        assert(all.skip(i as int).drop_first() =~= all.skip(i + 1));
        i = i + 1;
    }
    i
}

/// The outputs that a compilation is expected to write.
pub fn rustc_expected_output_paths(
    style: PathStyle,
    rustc_args: &RustcParsedArgs,
    primary_output_path: &str,
    cwd: &str,
) -> (paths: Vec<NormalizedPath>)
    ensures
        path_views(paths@) == expected_outputs(style, *rustc_args, primary_output_path@, cwd@),
{
    let ghost given = emit_views(rustc_args.explicit_emit_paths@);
    let ghost kinds = views(rustc_args.emit_types@);
    let first = match rustc_args.explicit_emit_path("link") {
        Some(path) => path.clone(),
        None => NormalizedPath::new(style, primary_output_path),
    };
    let ghost head = first@;
    let mut paths: Vec<NormalizedPath> = Vec::new();
    paths.push(first);
    let dir = rustc_args.output_dir(cwd);
    let mut i: usize = 0;
    assert(path_views(paths@) =~= inferred(style, *rustc_args, cwd@, head, kinds.take(0)));
    while i < rustc_args.emit_types.len()
        invariant
            i <= rustc_args.emit_types@.len(),
            kinds == views(rustc_args.emit_types@),
            given == emit_views(rustc_args.explicit_emit_paths@),
            dir@ == out_dir_of(*rustc_args, cwd@),
            path_views(paths@) == inferred(style, *rustc_args, cwd@, head, kinds.take(i as int)),
        decreases rustc_args.emit_types@.len() - i,
    {
        let kind = rustc_args.emit_types[i].as_str();
        assert(kinds.take(i + 1).drop_last() =~= kinds.take(i as int));
        assert(kinds.take(i + 1).last() == kind@);
        if rustc_args.explicit_emit_path(kind).is_none() {
            if let Some(name) = emitted(rustc_args, kind) {
                let path = join(style, dir, name.as_str());
                push_unique_output_path(&mut paths, NormalizedPath::new(style, path.as_str()));
            }
        }
        i = i + 1;
    }
    assert(kinds.take(kinds.len() as int) =~= kinds);
    let ghost start = path_views(paths@);
    let mut j: usize = 0;
    assert(given.take(0) =~= Seq::<(Seq<char>, Seq<char>)>::empty());
    while j < rustc_args.explicit_emit_paths.len()
        invariant
            j <= rustc_args.explicit_emit_paths@.len(),
            given == emit_views(rustc_args.explicit_emit_paths@),
            path_views(paths@) == overridden(style, start, given.take(j as int)),
        decreases rustc_args.explicit_emit_paths@.len() - j,
    {
        let kind = rustc_args.explicit_emit_paths[j].0.as_str();
        let path = rustc_args.explicit_emit_paths[j].1.clone();
        assert(given.take(j + 1).drop_last() =~= given.take(j as int));
        assert(given.take(j + 1).last() == (kind@, path@));
        let at = find_slot(style, &paths, kind);
        if at < paths.len() {
            let ghost paths0 = paths@;
            paths.set(at, path);
            assert(path_views(paths@) =~= path_views(paths0).update(at as int, path@));
        } else {
            push_unique_output_path(&mut paths, path);
        }
        j = j + 1;
    }
    assert(given.take(given.len() as int) =~= given);
    paths
}

// ── Outputs found ───────────────────────────────────────────────────────

/// A file that a compilation wrote.
#[derive(Debug)]
pub struct RustcOutputFile {
    /// Its name.
    pub name: String,
    /// Where it lies.
    pub path: NormalizedPath,
    /// Its size in bytes.
    pub size: u64,
}

/// A file that a compilation wrote, by its texts.
pub struct OutputView {
    /// Its name.
    pub name: Seq<char>,
    /// Where it lies.
    pub path: Seq<char>,
    /// Its size in bytes.
    pub size: u64,
}

/// Files that a compilation wrote, by their texts.
pub open spec fn output_views(list: Seq<RustcOutputFile>) -> Seq<OutputView> {
    Seq::new(list.len(), |i: int| OutputView { name: list[i].name@, path: list[i].path@, size: list[i].size })
}

/// The file name of a path; empty where it names nothing.
pub open spec fn name_or_empty(style: PathStyle, path: Seq<char>) -> Seq<char> {
    match name_of(style, path) {
        Some(name) => name,
        None => ""@,
    }
}

/// Whether something stands at `path`.
pub open spec fn exists_at(probes: Seq<Probe>, path: Seq<char>) -> bool {
    kind_at(probes, path) != FileKind::Missing
}

/// Whether one of the outputs has this name.
pub open spec fn has_name(outputs: Seq<OutputView>, name: Seq<char>) -> bool {
    exists|i: int| 0 <= i < outputs.len() && (#[trigger] outputs[i]).name == name
}

/// The outputs with the one at `path`, where a regular file stands there and none of the outputs
/// has its name.
pub open spec fn with_output(style: PathStyle, outputs: Seq<OutputView>, path: Seq<char>, probes: Seq<Probe>) -> Seq<
    OutputView,
> {
    let name = name_or_empty(style, path);
    if !has_name(outputs, name) && kind_at(probes, path) == FileKind::File {
        outputs.push(OutputView { name, path: clean(style, path), size: size_at(probes, path) })
    } else {
        outputs
    }
}

/// A file of the crate in its output directory.
pub open spec fn crate_file(style: PathStyle, args: RustcParsedArgs, cwd: Seq<char>, prefix: Seq<char>, ext: Seq<char>) -> Seq<
    char,
> {
    joined_path(style, out_dir_of(args, cwd), prefix + base_name(args) + ext)
}

/// The file that `--emit` of this kind wrote besides the primary output, where one is there: for
/// `link` an `rlib`, else a static library.
pub open spec fn emitted_file(
    style: PathStyle,
    args: RustcParsedArgs,
    primary: Seq<char>,
    cwd: Seq<char>,
    kind: Seq<char>,
    probes: Seq<Probe>,
) -> Option<Seq<char>> {
    let rmeta = crate_file(style, args, cwd, "lib"@, ".rmeta"@);
    let rlib = crate_file(style, args, cwd, "lib"@, ".rlib"@);
    let staticlib = crate_file(style, args, cwd, "lib"@, ".a"@);
    let deps = crate_file(style, args, cwd, ""@, ".d"@);
    if kind == "metadata"@ {
        if !same(style, rmeta, primary) && exists_at(probes, rmeta) {
            Some(rmeta)
        } else {
            None
        }
    } else if kind == "link"@ {
        if !same(style, rlib, primary) && exists_at(probes, rlib) {
            Some(rlib)
        } else if !same(style, staticlib, primary) && exists_at(probes, staticlib) {
            Some(staticlib)
        } else {
            None
        }
    } else if kind == "dep-info"@ {
        if exists_at(probes, deps) {
            Some(deps)
        } else {
            None
        }
    } else {
        None
    }
}

/// The outputs after those of `kinds`.
pub open spec fn with_kinds(
    style: PathStyle,
    args: RustcParsedArgs,
    primary: Seq<char>,
    cwd: Seq<char>,
    start: Seq<OutputView>,
    kinds: Seq<Seq<char>>,
    probes: Seq<Probe>,
) -> Seq<OutputView>
    decreases kinds.len(),
{
    if kinds.len() == 0 {
        start
    } else {
        let before = with_kinds(style, args, primary, cwd, start, kinds.drop_last(), probes);
        match emitted_file(style, args, primary, cwd, kinds.last(), probes) {
            Some(path) => with_output(style, before, path, probes),
            None => before,
        }
    }
}

/// The outputs after the paths that were given.
pub open spec fn with_given(
    style: PathStyle,
    primary: Seq<char>,
    start: Seq<OutputView>,
    given: Seq<(Seq<char>, Seq<char>)>,
    probes: Seq<Probe>,
) -> Seq<OutputView>
    decreases given.len(),
{
    if given.len() == 0 {
        start
    } else {
        let before = with_given(style, primary, start, given.drop_last(), probes);
        let path = given.last().1;
        if !same(style, path, primary) && exists_at(probes, path) {
            with_output(style, before, path, probes)
        } else {
            before
        }
    }
}

/// The outputs that a compilation left: none without the primary one, which comes first; then
/// what `--emit` asked for, by the crate's name and by the paths given.
pub open spec fn collected(
    style: PathStyle,
    args: RustcParsedArgs,
    primary: Seq<char>,
    cwd: Seq<char>,
    probes: Seq<Probe>,
) -> Seq<OutputView> {
    if !exists_at(probes, primary) {
        Seq::empty()
    } else {
        let first = OutputView {
            name: name_or_empty(style, primary),
            path: clean(style, primary),
            size: size_at(probes, primary),
        };
        let by_kind = with_kinds(style, args, primary, cwd, seq![first], views(args.emit_types@), probes);
        with_given(style, primary, by_kind, emit_views(args.explicit_emit_paths@), probes)
    }
}

/// The file name of a path; empty where it names nothing.
fn name_text(style: PathStyle, path: &str) -> (name: String)
    ensures
        name@ == name_or_empty(style, path@),
{
    match file_name(style, path) {
        Some(name) => name,
        None => "".to_owned(),
    }
}

/// Whether something stands at `path`.
fn is_there(probes: &[Probe], path: &str) -> (yes: bool)
    ensures
        yes == exists_at(probes@, path@),
{
    found_kind(probes, path) != FileKind::Missing
}

/// Whether one of the outputs has this name.
fn names_contain(outputs: &[RustcOutputFile], name: &str) -> (yes: bool)
    ensures
        yes == has_name(output_views(outputs@), name@),
{
    let mut i: usize = 0;
    while i < outputs.len()
        invariant
            i <= outputs@.len(),
            forall|j: int| 0 <= j < i ==> (#[trigger] output_views(outputs@)[j]).name != name@,
        decreases outputs@.len() - i,
    {
        if same_text(outputs[i].name.as_str(), name) {
            assert(output_views(outputs@)[i as int].name == name@);
            return true;
        }
        i = i + 1;
    }
    false
}

/// Adds the output at `path`, where there is one and none has its name.
fn add_output(outputs: &mut Vec<RustcOutputFile>, style: PathStyle, path: &str, probes: &[Probe])
    ensures
        output_views(final(outputs)@) == with_output(style, output_views(old(outputs)@), path@, probes@),
{
    let name = name_text(style, path);
    if !names_contain(outputs, name.as_str()) && found_kind(probes, path) == FileKind::File {
        let file = RustcOutputFile {
            name,
            path: NormalizedPath::new(style, path),
            size: found_size(probes, path),
        };
        let ghost outputs0 = outputs@;
        outputs.push(file);
        assert(output_views(outputs@) =~= output_views(outputs0).push(
            OutputView { name: file.name@, path: file.path@, size: file.size },
        ));
    }
}

/// A file of the crate in its output directory.
fn crate_path(style: PathStyle, args: &RustcParsedArgs, cwd: &str, prefix: &str, ext: &str) -> (path: String)
    ensures
        path@ == crate_file(style, *args, cwd@, prefix@, ext@),
{
    let base = base_text(args);
    let name = concat3(prefix, base.as_str(), ext);
    join(style, args.output_dir(cwd), name.as_str())
}

/// The file that `--emit` of this kind wrote besides the primary output.
fn find_emitted(style: PathStyle, args: &RustcParsedArgs, primary: &str, cwd: &str, kind: &str, probes: &[Probe]) -> (path: Option<
    String,
>)
    ensures
        crate::text::opt_view(path) == emitted_file(style, *args, primary@, cwd@, kind@, probes@),
{
    if same_text(kind, "metadata") {
        let rmeta = crate_path(style, args, cwd, "lib", ".rmeta");
        if !same_path(style, rmeta.as_str(), primary) && is_there(probes, rmeta.as_str()) {
            return Some(rmeta);
        }
        None
    } else if same_text(kind, "link") {
        let rlib = crate_path(style, args, cwd, "lib", ".rlib");
        if !same_path(style, rlib.as_str(), primary) && is_there(probes, rlib.as_str()) {
            return Some(rlib);
        }
        let staticlib = crate_path(style, args, cwd, "lib", ".a");
        if !same_path(style, staticlib.as_str(), primary) && is_there(probes, staticlib.as_str()) {
            return Some(staticlib);
        }
        None
    } else if same_text(kind, "dep-info") {
        let deps = crate_path(style, args, cwd, "", ".d");
        if is_there(probes, deps.as_str()) {
            return Some(deps);
        }
        None
    } else {
        None
    }
}

/// The paths to look at before outputs can be collected.
pub open spec fn output_probes(style: PathStyle, args: RustcParsedArgs, primary: Seq<char>, cwd: Seq<char>) -> Seq<Seq<char>> {
    let given = emit_views(args.explicit_emit_paths@);
    seq![
        primary,
        crate_file(style, args, cwd, "lib"@, ".rmeta"@),
        crate_file(style, args, cwd, "lib"@, ".rlib"@),
        crate_file(style, args, cwd, "lib"@, ".a"@),
        crate_file(style, args, cwd, ""@, ".d"@),
    ] + Seq::new(given.len(), |i: int| given[i].1)
}

/// The paths to look at before outputs can be collected.
pub fn rustc_output_probes(style: PathStyle, rustc_args: &RustcParsedArgs, primary_output_path: &str, cwd: &str) -> (paths: Vec<
    String,
>)
    ensures
        views(paths@) == output_probes(style, *rustc_args, primary_output_path@, cwd@),
{
    let ghost given = emit_views(rustc_args.explicit_emit_paths@);
    let ghost given_paths = Seq::new(given.len(), |i: int| given[i].1);
    let mut paths: Vec<String> = Vec::new();
    paths.push(primary_output_path.to_owned());
    paths.push(crate_path(style, rustc_args, cwd, "lib", ".rmeta"));
    paths.push(crate_path(style, rustc_args, cwd, "lib", ".rlib"));
    paths.push(crate_path(style, rustc_args, cwd, "lib", ".a"));
    paths.push(crate_path(style, rustc_args, cwd, "", ".d"));
    let ghost front = views(paths@);
    assert(front + given_paths =~= output_probes(style, *rustc_args, primary_output_path@, cwd@));
    let mut i: usize = 0;
    assert(views(paths@) =~= front + given_paths.take(0));
    while i < rustc_args.explicit_emit_paths.len()
        invariant
            i <= rustc_args.explicit_emit_paths@.len(),
            given == emit_views(rustc_args.explicit_emit_paths@),
            given_paths == Seq::new(given.len(), |i: int| given[i].1),
            views(paths@) == front + given_paths.take(i as int),
        decreases rustc_args.explicit_emit_paths@.len() - i,
    {
        let ghost paths0 = views(paths@);
        let path = rustc_args.explicit_emit_paths[i].1.as_str().to_owned();
        paths.push(path);
        assert(views(paths@) =~= paths0.push(path@));
        assert(views(paths@) =~= front + given_paths.take(i + 1));
        i = i + 1;
    }
    assert(given_paths.take(given_paths.len() as int) =~= given_paths);
    paths
}

/// The outputs that a compilation left, by what a look at the file system found.
pub fn collect_rustc_output_files(
    style: PathStyle,
    rustc_args: &RustcParsedArgs,
    primary_output_path: &str,
    cwd: &str,
    probes: &[Probe],
) -> (outputs: Vec<RustcOutputFile>)
    ensures
        output_views(outputs@) == collected(style, *rustc_args, primary_output_path@, cwd@, probes@),
{
    let ghost primary = primary_output_path@;
    let ghost given = emit_views(rustc_args.explicit_emit_paths@);
    let ghost kinds = views(rustc_args.emit_types@);
    let mut outputs: Vec<RustcOutputFile> = Vec::new();
    if !is_there(probes, primary_output_path) {
        assert(output_views(outputs@) =~= Seq::<OutputView>::empty());
        return outputs;
    }
    let first = RustcOutputFile {
        name: name_text(style, primary_output_path),
        path: NormalizedPath::new(style, primary_output_path),
        size: found_size(probes, primary_output_path),
    };
    outputs.push(first);
    let ghost start = seq![OutputView { name: first.name@, path: first.path@, size: first.size }];
    assert(output_views(outputs@) =~= start);
    assert(kinds.take(0) =~= Seq::<Seq<char>>::empty());
    let mut i: usize = 0;
    while i < rustc_args.emit_types.len()
        invariant
            i <= rustc_args.emit_types@.len(),
            kinds == views(rustc_args.emit_types@),
            primary == primary_output_path@,
            output_views(outputs@) == with_kinds(
                style,
                *rustc_args,
                primary,
                cwd@,
                start,
                kinds.take(i as int),
                probes@,
            ),
        decreases rustc_args.emit_types@.len() - i,
    {
        let kind = rustc_args.emit_types[i].as_str();
        assert(kinds.take(i + 1).drop_last() =~= kinds.take(i as int));
        assert(kinds.take(i + 1).last() == kind@);
        if let Some(path) = find_emitted(style, rustc_args, primary_output_path, cwd, kind, probes) {
            add_output(&mut outputs, style, path.as_str(), probes);
        }
        i = i + 1;
    }
    assert(kinds.take(kinds.len() as int) =~= kinds);
    let ghost by_kind = output_views(outputs@);
    let mut j: usize = 0;
    assert(given.take(0) =~= Seq::<(Seq<char>, Seq<char>)>::empty());
    while j < rustc_args.explicit_emit_paths.len()
        invariant
            j <= rustc_args.explicit_emit_paths@.len(),
            given == emit_views(rustc_args.explicit_emit_paths@),
            primary == primary_output_path@,
            output_views(outputs@) == with_given(style, primary, by_kind, given.take(j as int), probes@),
        decreases rustc_args.explicit_emit_paths@.len() - j,
    {
        let path = rustc_args.explicit_emit_paths[j].1.as_str();
        assert(given.take(j + 1).drop_last() =~= given.take(j as int));
        assert(given.take(j + 1).last().1 == path@);
        if !same_path(style, path, primary_output_path) && is_there(probes, path) {
            add_output(&mut outputs, style, path, probes);
        }
        j = j + 1;
    }
    assert(given.take(given.len() as int) =~= given);
    outputs
}

// ── Laws ────────────────────────────────────────────────────────────────

/// Whether no two outputs have one name.
pub open spec fn names_differ(outputs: Seq<OutputView>) -> bool {
    forall|i: int, j: int|
        #![trigger outputs[i], outputs[j]]
        0 <= i < j < outputs.len() ==> outputs[i].name != outputs[j].name
}

/// Adding an output keeps names apart and what came first in place.
proof fn lemma_with_output(style: PathStyle, outputs: Seq<OutputView>, path: Seq<char>, probes: Seq<Probe>)
    requires
        names_differ(outputs),
    ensures
        names_differ(with_output(style, outputs, path, probes)),
        outputs.is_prefix_of(with_output(style, outputs, path, probes)),
{
    let out = with_output(style, outputs, path, probes);
    assert(outputs =~= out.take(outputs.len() as int));
    assert forall|i: int, j: int|
        #![trigger out[i], out[j]]
        0 <= i < j < out.len() implies out[i].name != out[j].name by {
        if j < outputs.len() {
            assert(outputs[i].name != outputs[j].name);
        } else {
            assert(outputs[i].name == out[i].name);
        }
    }
}

/// The kinds keep names apart and what came first in place.
proof fn lemma_with_kinds(
    style: PathStyle,
    args: RustcParsedArgs,
    primary: Seq<char>,
    cwd: Seq<char>,
    start: Seq<OutputView>,
    kinds: Seq<Seq<char>>,
    probes: Seq<Probe>,
)
    requires
        names_differ(start),
        start.len() > 0,
    ensures
        names_differ(with_kinds(style, args, primary, cwd, start, kinds, probes)),
        with_kinds(style, args, primary, cwd, start, kinds, probes).len() > 0,
        with_kinds(style, args, primary, cwd, start, kinds, probes)[0] == start[0],
    decreases kinds.len(),
{
    if kinds.len() > 0 {
        lemma_with_kinds(style, args, primary, cwd, start, kinds.drop_last(), probes);
        let before = with_kinds(style, args, primary, cwd, start, kinds.drop_last(), probes);
        if let Some(path) = emitted_file(style, args, primary, cwd, kinds.last(), probes) {
            lemma_with_output(style, before, path, probes);
        }
    }
}

/// The given paths keep names apart and what came first in place.
proof fn lemma_with_given(
    style: PathStyle,
    primary: Seq<char>,
    start: Seq<OutputView>,
    given: Seq<(Seq<char>, Seq<char>)>,
    probes: Seq<Probe>,
)
    requires
        names_differ(start),
        start.len() > 0,
    ensures
        names_differ(with_given(style, primary, start, given, probes)),
        with_given(style, primary, start, given, probes).len() > 0,
        with_given(style, primary, start, given, probes)[0] == start[0],
    decreases given.len(),
{
    if given.len() > 0 {
        lemma_with_given(style, primary, start, given.drop_last(), probes);
        lemma_with_output(
            style,
            with_given(style, primary, start, given.drop_last(), probes),
            given.last().1,
            probes,
        );
    }
}

/// No two outputs have one name; and where the primary output is there, it comes first.
pub proof fn lemma_collected(style: PathStyle, args: RustcParsedArgs, primary: Seq<char>, cwd: Seq<char>, probes: Seq<Probe>)
    ensures
        names_differ(collected(style, args, primary, cwd, probes)),
        exists_at(probes, primary) ==> collected(style, args, primary, cwd, probes).len() > 0 && collected(
            style,
            args,
            primary,
            cwd,
            probes,
        )[0].path == clean(style, primary),
{
    if exists_at(probes, primary) {
        let first = OutputView {
            name: name_or_empty(style, primary),
            path: clean(style, primary),
            size: size_at(probes, primary),
        };
        lemma_with_kinds(style, args, primary, cwd, seq![first], views(args.emit_types@), probes);
        let by_kind = with_kinds(style, args, primary, cwd, seq![first], views(args.emit_types@), probes);
        lemma_with_given(style, primary, by_kind, emit_views(args.explicit_emit_paths@), probes);
    }
}

} // verus!
