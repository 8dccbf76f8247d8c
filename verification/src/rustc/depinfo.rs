//! Reading the dependency information that `rustc` writes.

use vstd::prelude::*;
use super::{crate_name_of, emit_views, explicit_path, out_dir_of, suffix_of, RustcParsedArgs};
use crate::context::{lemma_merged, merge_paths, merged};
use crate::graph::ScanResult;
use crate::order::{lemma_sorted_of, lemma_text_order, sort_texts, sorted_of, text_order};
use crate::path::{
    clean, is_letter, join, joined_path, lemma_path_order, path_order, path_views, resolve, resolved, same, same_path,
    sort_paths, NormalizedPath, PathStyle,
};
use crate::probe::{found_kind, kind_at, FileKind, Probe};
use crate::text::{
    chars, concat3, contains_text, find_from, first_at, split_at_char, split_char, strip_prefix, text_of, trim,
    trimmed, views, without_prefix,
};

verus! {

// ── Tokens ──────────────────────────────────────────────────────────────

/// Whether `c` separates paths.
pub open spec fn separates(c: char) -> bool {
    c == ' ' || c == '\t' || c == '\n' || c == '\u{c}' || c == '\r'
}

/// The first position from `i` on that does not separate paths.
pub open spec fn token_start(s: Seq<char>, i: int) -> int
    decreases s.len() - i,
{
    if 0 <= i < s.len() && separates(s[i]) {
        token_start(s, i + 1)
    } else {
        i
    }
}

/// Where the path that reaches position `i` ends: at the next separator that no backslash
/// precedes.
pub open spec fn token_end(s: Seq<char>, i: int) -> int
    decreases s.len() - i,
{
    if i < 0 || i >= s.len() || separates(s[i]) {
        i
    } else if s[i] == '\\' && i + 1 < s.len() {
        token_end(s, i + 2)
    } else {
        token_end(s, i + 1)
    }
}

/// `s` with every backslash before a space taken away.
pub open spec fn unescaped(s: Seq<char>) -> Seq<char>
    decreases s.len(),
{
    if s.len() == 0 {
        s
    } else if s.len() >= 2 && s[0] == '\\' && s[1] == ' ' {
        seq![' '] + unescaped(s.skip(2))
    } else {
        seq![s[0]] + unescaped(s.skip(1))
    }
}

/// Where tokens start and end.
proof fn lemma_token_bounds(s: Seq<char>, i: int)
    requires
        0 <= i <= s.len(),
    ensures
        i <= token_start(s, i) <= s.len(),
        i <= token_end(s, i) <= s.len(),
        i < s.len() && !separates(s[i]) ==> token_end(s, i) > i,
    decreases s.len() - i,
{
    if i < s.len() {
        lemma_token_bounds(s, i + 1);
        if i + 2 <= s.len() {
            lemma_token_bounds(s, i + 2);
        }
    }
}

/// The paths in `s` from position `i` on.
pub open spec fn tokens(s: Seq<char>, i: int) -> Seq<Seq<char>>
    decreases s.len() - i,
    via tokens_decreases
{
    if i < 0 || i > s.len() || token_start(s, i) >= s.len() {
        Seq::empty()
    } else {
        let from = token_start(s, i);
        let to = token_end(s, from);
        seq![unescaped(s.subrange(from, to))] + tokens(s, to)
    }
}

#[via_fn]
proof fn tokens_decreases(s: Seq<char>, i: int) {
    if 0 <= i <= s.len() {
        lemma_token_bounds(s, i);
        lemma_start_stops(s, i);
        if token_start(s, i) < s.len() {
            lemma_token_bounds(s, token_start(s, i));
        }
    }
}

/// A token starts with no separator.
proof fn lemma_start_stops(s: Seq<char>, i: int)
    requires
        0 <= i <= s.len(),
    ensures
        token_start(s, i) < s.len() ==> !separates(s[token_start(s, i)]),
    decreases s.len() - i,
{
    if i < s.len() && separates(s[i]) {
        lemma_start_stops(s, i + 1);
    }
}

/// Whether `c` separates paths.
fn is_separator(c: char) -> (yes: bool)
    ensures
        yes == separates(c),
{
    c == ' ' || c == '\t' || c == '\n' || c == '\u{c}' || c == '\r'
}

/// The characters `from..to` with every backslash before a space taken away.
fn unescape(list: &[char], from: usize, to: usize) -> (text: String)
    requires
        from <= to <= list@.len(),
    ensures
        text@ == unescaped(list@.subrange(from as int, to as int)),
{
    let ghost all = list@.subrange(from as int, to as int);
    let mut text = String::new();
    let mut i: usize = from;
    assert(all.skip(0) =~= all);
    assert(text@ + unescaped(all.skip(0)) =~= unescaped(all));
    while i < to
        invariant
            from <= i <= to <= list@.len(),
            all == list@.subrange(from as int, to as int),
            text@ + unescaped(all.skip(i - from)) == unescaped(all),
        decreases to - i,
    {
        let ghost rest = all.skip(i - from);
        let ghost text0 = text@;
        assert(rest[0] == list@[i as int]);
        if to - i >= 2 && list[i] == '\\' && list[i + 1] == ' ' {
            assert(rest[1] == list@[i + 1]);
            text.push(' ');
            assert(rest.skip(2) =~= all.skip(i + 2 - from));
            assert(text0 + (seq![' '] + unescaped(rest.skip(2))) =~= text@ + unescaped(rest.skip(2)));
            i = i + 2;
        } else {
            if to - i >= 2 {
                assert(rest[1] == list@[i + 1]);
            }
            text.push(list[i]);
            assert(rest.skip(1) =~= all.skip(i + 1 - from));
            assert(text0 + (seq![rest[0]] + unescaped(rest.skip(1))) =~= text@ + unescaped(rest.skip(1)));
            i = i + 1;
        }
    }
    assert(all.skip(to - from) =~= Seq::<char>::empty());
    assert(text@ + Seq::<char>::empty() =~= text@);
    text
}

/// Appends the paths in `text`.
fn add_tokens(out: &mut Vec<String>, text: &str)
    ensures
        views(final(out)@) == views(old(out)@) + tokens(text@, 0),
{
    let list = chars(text);
    let ghost s = list@;
    let ghost start = views(out@);
    let ghost whole = start + tokens(s, 0);
    let mut i: usize = 0;
    while i < list.len()
        invariant
            s == list@,
            i <= s.len(),
            whole == views(old(out)@) + tokens(text@, 0),
            views(out@) + tokens(s, i as int) == whole,
        decreases s.len() - i,
    {
        proof {
            lemma_token_bounds(s, i as int);
            lemma_start_stops(s, i as int);
        }
        let mut from: usize = i;
        while from < list.len() && is_separator(list[from])
            invariant
                s == list@,
                i <= from <= s.len(),
                token_start(s, i as int) == token_start(s, from as int),
            decreases s.len() - from,
        {
            from = from + 1;
        }
        if from == list.len() {
            assert(tokens(s, i as int) =~= Seq::<Seq<char>>::empty());
            assert(views(out@) =~= whole);
            return;
        }
        proof {
            lemma_token_bounds(s, from as int);
        }
        let mut to: usize = from;
        while to < list.len() && !is_separator(list[to])
            invariant
                s == list@,
                from <= to <= s.len(),
                token_end(s, from as int) == token_end(s, to as int),
            decreases s.len() - to,
        {
            if list[to] == '\\' && list.len() - to > 1 {
                to = to + 2;
            } else {
                to = to + 1;
            }
        }
        let ghost out0 = views(out@);
        let token = unescape(&list, from, to);
        out.push(token);
        proof {
            assert(views(out@) =~= out0.push(token@));
            assert(out0 + (seq![token@] + tokens(s, to as int)) =~= views(out@) + tokens(s, to as int));
        }
        i = to;
    }
    proof {
        lemma_token_bounds(s, i as int);
        assert(tokens(s, i as int) =~= Seq::<Seq<char>>::empty());
        assert(views(out@) =~= whole);
    }
}

// ── Lines ───────────────────────────────────────────────────────────────

/// The name of the variable that a line says the crate read; `None` where it says nothing of the
/// kind.
pub open spec fn env_dep(line: Seq<char>) -> Option<Seq<char>> {
    match without_prefix(trimmed(line), "# env-dep:"@) {
        Some(rest) => {
            let name = trimmed(rest.take(first_at(rest, '=')));
            if name.len() == 0 {
                None
            } else {
                Some(name)
            }
        },
        None => None,
    }
}

/// Where the files of a rule begin: behind its colon, which is not that of a drive letter.
pub open spec fn rule_colon(line: Seq<char>) -> Option<int> {
    let from: int = if line.len() >= 2 && line[1] == ':' && is_letter(line[0]) {
        2
    } else {
        0
    };
    if from + first_at(line.skip(from), ':') < line.len() {
        Some(from + first_at(line.skip(from), ':'))
    } else {
        None
    }
}

/// The files that a line names: what stands behind the colon of a rule; comments name none.
pub open spec fn line_files(line: Seq<char>) -> Seq<Seq<char>> {
    let l = trimmed(line);
    if l.len() == 0 || l[0] == '#' {
        Seq::empty()
    } else {
        match rule_colon(l) {
            Some(colon) => tokens(trimmed(l.skip(colon + 1)), 0),
            None => Seq::empty(),
        }
    }
}

/// The files that the lines name.
pub open spec fn all_files(lines: Seq<Seq<char>>) -> Seq<Seq<char>>
    decreases lines.len(),
{
    if lines.len() == 0 {
        Seq::empty()
    } else {
        all_files(lines.drop_last()) + line_files(lines.last())
    }
}

/// The variables that the lines name.
pub open spec fn all_env_deps(lines: Seq<Seq<char>>) -> Seq<Seq<char>>
    decreases lines.len(),
{
    if lines.len() == 0 {
        Seq::empty()
    } else {
        match env_dep(lines.last()) {
            Some(name) => all_env_deps(lines.drop_last()).push(name),
            None => all_env_deps(lines.drop_last()),
        }
    }
}

/// The variables that the crate read, in order, each once.
pub open spec fn env_dep_names(content: Seq<char>) -> Seq<Seq<char>> {
    sorted_of(merged(Seq::empty(), all_env_deps(split_at_char(content, '\n'))), text_order())
}

/// The files that the rules name, each once.
pub open spec fn dep_names(content: Seq<char>) -> Seq<Seq<char>> {
    merged(Seq::empty(), all_files(split_at_char(content, '\n')))
}

/// Reads the variable that a line names.
fn read_env_dep(line: &str) -> (name: Option<String>)
    ensures
        crate::text::opt_view(name) == env_dep(line@),
{
    let inner = trim(line);
    match strip_prefix(inner.as_str(), "# env-dep:") {
        Some(rest) => {
            let list = chars(rest.as_str());
            let at = find_from(&list, 0, '=');
            assert(list@.skip(0) =~= list@);
            let head = text_of(&list, 0, at);
            assert(head@ =~= rest@.take(at as int));
            let name = trim(head.as_str());
            if name.as_str().unicode_len() == 0 {
                None
            } else {
                Some(name)
            }
        },
        None => None,
    }
}

/// Appends the files that a line names.
fn add_line_files(out: &mut Vec<String>, line: &str)
    ensures
        views(final(out)@) == views(old(out)@) + line_files(line@),
{
    let inner = trim(line);
    let list = chars(inner.as_str());
    let n: usize = list.len();
    assert(views(out@) + Seq::<Seq<char>>::empty() =~= views(out@));
    if n == 0 || list[0] == '#' {
        return;
    }
    let from: usize = if n >= 2 && list[1] == ':' && (('a' <= list[0] && list[0] <= 'z') || ('A' <= list[0] && list[0]
        <= 'Z')) {
        2
    } else {
        0
    };
    let colon = find_from(&list, from, ':');
    if colon == n {
        return;
    }
    let right = text_of(&list, colon + 1, n);
    assert(right@ =~= inner@.skip(colon + 1));
    let names = trim(right.as_str());
    add_tokens(out, names.as_str());
}

/// Appends `text` unless it is there.
fn add_unique(list: &mut Vec<String>, text: String)
    ensures
        views(final(list)@) == (if views(old(list)@).contains(text@) {
            views(old(list)@)
        } else {
            views(old(list)@).push(text@)
        }),
{
    if !contains_text(list, text.as_str()) {
        let ghost list0 = list@;
        list.push(text);
        assert(views(list@) =~= views(list0).push(text@));
    }
}

/// `list` without repeats.
fn unique(list: Vec<String>) -> (out: Vec<String>)
    ensures
        views(out@) == merged(Seq::empty(), views(list@)),
{
    let ghost all = views(list@);
    let mut out: Vec<String> = Vec::new();
    let mut i: usize = 0;
    assert(views(out@) =~= merged(Seq::empty(), all.take(0)));
    while i < list.len()
        invariant
            i <= list@.len(),
            all == views(list@),
            views(out@) == merged(Seq::empty(), all.take(i as int)),
        decreases list@.len() - i,
    {
        assert(all.take(i + 1).drop_last() =~= all.take(i as int));
        assert(all.take(i + 1).last() == list@[i as int]@);
        add_unique(&mut out, list[i].clone());
        i = i + 1;
    }
    assert(all.take(all.len() as int) =~= all);
    out
}

/// The files and the variables that dependency information names, each once; the variables in
/// order.
fn read_depinfo(content: &str) -> (found: (Vec<String>, Vec<String>))
    ensures
        views(found.0@) == dep_names(content@),
        views(found.1@) == env_dep_names(content@),
{
    let lines = split_char(content, '\n');
    let ghost all = views(lines@);
    let mut files: Vec<String> = Vec::new();
    let mut names: Vec<String> = Vec::new();
    let mut i: usize = 0;
    assert(views(files@) =~= all_files(all.take(0)));
    assert(views(names@) =~= all_env_deps(all.take(0)));
    while i < lines.len()
        invariant
            i <= lines@.len(),
            all == views(lines@),
            views(files@) == all_files(all.take(i as int)),
            views(names@) == all_env_deps(all.take(i as int)),
        decreases lines@.len() - i,
    {
        assert(all.take(i + 1).drop_last() =~= all.take(i as int));
        assert(all.take(i + 1).last() == lines@[i as int]@);
        add_line_files(&mut files, lines[i].as_str());
        if let Some(name) = read_env_dep(lines[i].as_str()) {
            let ghost names0 = names@;
            names.push(name);
            assert(views(names@) =~= views(names0).push(name@));
        }
        i = i + 1;
    }
    assert(all.take(all.len() as int) =~= all);
    let distinct_files = unique(files);
    let distinct_names = unique(names);
    (distinct_files, sort_texts(distinct_names))
}

// ── The scan ────────────────────────────────────────────────────────────

/// The files that dependency information names but the source, as seen from `cwd`.
pub open spec fn dep_candidates(style: PathStyle, names: Seq<Seq<char>>, source: Seq<char>, cwd: Seq<char>) -> Seq<Seq<char>>
    decreases names.len(),
{
    if names.len() == 0 {
        Seq::empty()
    } else {
        let before = dep_candidates(style, names.drop_last(), source, cwd);
        let path = resolved(style, cwd, names.last());
        if same(style, path, clean(style, resolved(style, cwd, source))) {
            before
        } else {
            before.push(path)
        }
    }
}

/// Those of `paths` where something stands, in their shortest spelling.
pub open spec fn existing(style: PathStyle, paths: Seq<Seq<char>>, probes: Seq<Probe>) -> Seq<Seq<char>>
    decreases paths.len(),
{
    if paths.len() == 0 {
        Seq::empty()
    } else {
        let before = existing(style, paths.drop_last(), probes);
        if kind_at(probes, paths.last()) == FileKind::Missing {
            before
        } else {
            before.push(clean(style, paths.last()))
        }
    }
}

/// The files that a crate was made from, but its source: those that dependency information names
/// and that are there, in order, each once however it is named.
pub open spec fn dep_files(
    style: PathStyle,
    content: Seq<char>,
    source: Seq<char>,
    cwd: Seq<char>,
    probes: Seq<Probe>,
) -> Seq<Seq<char>> {
    let found = existing(style, dep_candidates(style, dep_names(content), source, cwd), probes);
    sorted_of(merged(Seq::empty(), found), path_order(style))
}

/// What dependency information says: the files, and the variables that were read.
#[derive(Debug)]
pub struct RustcDepScan {
    /// The files.
    pub scan: ScanResult,
    /// The variables.
    pub env_dep_names: Vec<String>,
}

/// The files to look for before dependency information can be used.
fn candidates(style: PathStyle, names: &[String], source_path: &str, cwd: &str) -> (paths: Vec<String>)
    ensures
        views(paths@) == dep_candidates(style, views(names@), source_path@, cwd@),
{
    let source_abs = resolve(style, cwd, source_path);
    let source = NormalizedPath::new(style, source_abs.as_str());
    let ghost all = views(names@);
    let mut paths: Vec<String> = Vec::new();
    let mut i: usize = 0;
    assert(views(paths@) =~= dep_candidates(style, all.take(0), source_path@, cwd@));
    while i < names.len()
        invariant
            i <= names@.len(),
            all == views(names@),
            source@ == clean(style, resolved(style, cwd@, source_path@)),
            views(paths@) == dep_candidates(style, all.take(i as int), source_path@, cwd@),
        decreases names@.len() - i,
    {
        assert(all.take(i + 1).drop_last() =~= all.take(i as int));
        assert(all.take(i + 1).last() == names@[i as int]@);
        let path = resolve(style, cwd, names[i].as_str());
        if !same_path(style, path.as_str(), source.as_str()) {
            let ghost paths0 = paths@;
            paths.push(path);
            assert(views(paths@) =~= views(paths0).push(path@));
        }
        i = i + 1;
    }
    assert(all.take(all.len() as int) =~= all);
    paths
}

/// The files to look for before dependency information can be used.
pub fn depinfo_probes(style: PathStyle, content: &str, source_path: &str, cwd: &str) -> (paths: Vec<String>)
    ensures
        views(paths@) == dep_candidates(style, dep_names(content@), source_path@, cwd@),
{
    let (names, _) = read_depinfo(content);
    candidates(style, &names, source_path, cwd)
}

/// Reads dependency information: rules `target: file file`, one per output, whose files are put
/// together without the source and without what is not there; and lines `# env-dep:NAME=value`,
/// of which the names are taken.
pub fn parse_rustc_depinfo(style: PathStyle, content: &str, source_path: &str, cwd: &str, probes: &[Probe]) -> (scan:
    RustcDepScan)
    ensures
        path_views(scan.scan.resolved@) == dep_files(style, content@, source_path@, cwd@, probes@),
        scan.scan.unresolved@.len() == 0,
        !scan.scan.has_computed,
        views(scan.env_dep_names@) == env_dep_names(content@),
{
    let (names, env_names) = read_depinfo(content);
    let paths = candidates(style, &names, source_path, cwd);
    let ghost all = views(paths@);
    let mut found: Vec<NormalizedPath> = Vec::new();
    let mut i: usize = 0;
    assert(path_views(found@) =~= existing(style, all.take(0), probes@));
    while i < paths.len()
        invariant
            i <= paths@.len(),
            all == views(paths@),
            path_views(found@) == existing(style, all.take(i as int), probes@),
        decreases paths@.len() - i,
    {
        assert(all.take(i + 1).drop_last() =~= all.take(i as int));
        assert(all.take(i + 1).last() == paths@[i as int]@);
        if found_kind(probes, paths[i].as_str()) != FileKind::Missing {
            let ghost found0 = found@;
            let path = NormalizedPath::new(style, paths[i].as_str());
            found.push(path);
            assert(path_views(found@) =~= path_views(found0).push(path@));
        }
        i = i + 1;
    }
    assert(all.take(all.len() as int) =~= all);
    let mut distinct: Vec<NormalizedPath> = Vec::new();
    assert(path_views(distinct@) =~= Seq::<Seq<char>>::empty());
    merge_paths(&mut distinct, &found);
    RustcDepScan {
        scan: ScanResult { resolved: sort_paths(style, distinct), unresolved: Vec::new(), has_computed: false },
        env_dep_names: env_names,
    }
}

/// Where `rustc` writes dependency information, where it is asked to.
pub open spec fn depfile(style: PathStyle, args: RustcParsedArgs, cwd: Seq<char>) -> Option<Seq<char>> {
    if !views(args.emit_types@).contains("dep-info"@) {
        None
    } else {
        match explicit_path(emit_views(args.explicit_emit_paths@), "dep-info"@) {
            Some(path) => Some(path),
            None => Some(
                joined_path(style, out_dir_of(args, cwd), crate_name_of(args) + suffix_of(args) + ".d"@),
            ),
        }
    }
}

/// Where `rustc` writes dependency information, where it is asked to.
pub fn rustc_depfile_path(style: PathStyle, rustc_args: &RustcParsedArgs, cwd: &str) -> (path: Option<String>)
    ensures
        crate::text::opt_view(path) == depfile(style, *rustc_args, cwd@),
{
    if !contains_text(&rustc_args.emit_types, "dep-info") {
        return None;
    }
    match rustc_args.explicit_emit_path("dep-info") {
        Some(path) => Some(path.as_str().to_owned()),
        None => {
            let name = concat3(rustc_args.crate_name_or_unknown(), rustc_args.file_suffix(), ".d");
            Some(join(style, rustc_args.output_dir(cwd), name.as_str()))
        },
    }
}

/// What a crate was made from. `content` is the dependency information that was read, where there
/// was any to read; extern crates are not part of it.
pub fn scan_rustc_deps(
    style: PathStyle,
    rustc_args: &RustcParsedArgs,
    source_path: &str,
    cwd: &str,
    content: Option<&str>,
    probes: &[Probe],
) -> (scan: RustcDepScan)
    ensures
        scan.scan.unresolved@.len() == 0,
        !scan.scan.has_computed,
        match content {
            Some(text) => if depfile(style, *rustc_args, cwd@) is Some {
                &&& path_views(scan.scan.resolved@) == dep_files(style, text@, source_path@, cwd@, probes@)
                &&& views(scan.env_dep_names@) == env_dep_names(text@)
            } else {
                &&& scan.scan.resolved@.len() == 0
                &&& scan.env_dep_names@.len() == 0
            },
            None => {
                &&& scan.scan.resolved@.len() == 0
                &&& scan.env_dep_names@.len() == 0
            },
        },
{
    if let Some(text) = content {
        if rustc_depfile_path(style, rustc_args, cwd).is_some() {
            return parse_rustc_depinfo(style, text, source_path, cwd, probes);
        }
    }
    RustcDepScan {
        scan: ScanResult { resolved: Vec::new(), unresolved: Vec::new(), has_computed: false },
        env_dep_names: Vec::new(),
    }
}

// ── Laws ────────────────────────────────────────────────────────────────

/// The variables come out each once, and all that are named.
pub proof fn lemma_env_dep_names(content: Seq<char>, name: Seq<char>)
    ensures
        env_dep_names(content).no_duplicates(),
        vstd::relations::sorted_by(env_dep_names(content), text_order()),
        env_dep_names(content).contains(name) <==> all_env_deps(split_at_char(content, '\n')).contains(name),
{
    let named = all_env_deps(split_at_char(content, '\n'));
    let distinct = merged(Seq::empty(), named);
    lemma_merged(Seq::empty(), named);
    lemma_text_order();
    lemma_sorted_of(distinct, text_order());
    distinct.lemma_multiset_has_no_duplicates();
    env_dep_names(content).lemma_multiset_has_no_duplicates_conv();
    crate::order::lemma_same_items(distinct, env_dep_names(content), name);
}

/// No candidate is the source.
proof fn lemma_candidates(style: PathStyle, names: Seq<Seq<char>>, source: Seq<char>, cwd: Seq<char>)
    ensures
        forall|i: int|
            0 <= i < dep_candidates(style, names, source, cwd).len() ==> !same(
                style,
                #[trigger] dep_candidates(style, names, source, cwd)[i],
                clean(style, resolved(style, cwd, source)),
            ),
    decreases names.len(),
{
    if names.len() > 0 {
        let init = names.drop_last();
        lemma_candidates(style, init, source, cwd);
        let before = dep_candidates(style, init, source, cwd);
        let now = dep_candidates(style, names, source, cwd);
        assert forall|i: int| 0 <= i < now.len() implies !same(
            style,
            #[trigger] now[i],
            clean(style, resolved(style, cwd, source)),
        ) by {
            if i < before.len() {
                assert(now[i] == before[i]);
            }
        }
    }
}

/// What exists comes from a path where something stands.
pub(crate) proof fn lemma_existing(style: PathStyle, paths: Seq<Seq<char>>, probes: Seq<Probe>, x: Seq<char>)
    requires
        existing(style, paths, probes).contains(x),
    ensures
        exists|i: int|
            0 <= i < paths.len() && clean(style, #[trigger] paths[i]) == x && kind_at(probes, paths[i]) != FileKind::Missing,
    decreases paths.len(),
{
    if paths.len() > 0 {
        let init = paths.drop_last();
        let before = existing(style, init, probes);
        let now = existing(style, paths, probes);
        if before.contains(x) {
            lemma_existing(style, init, probes, x);
            let i = choose|i: int|
                0 <= i < init.len() && clean(style, #[trigger] init[i]) == x && kind_at(probes, init[i])
                    != FileKind::Missing;
            assert(paths[i] == init[i]);
        } else {
            let i = now.index_of(x);
            if i < before.len() {
                assert(before[i] == x);
            }
            assert(paths[paths.len() - 1] == paths.last());
        }
    }
}

/// The source is never among the files, and something stands at each of them.
pub proof fn lemma_dep_files(
    style: PathStyle,
    content: Seq<char>,
    source: Seq<char>,
    cwd: Seq<char>,
    probes: Seq<Probe>,
    x: Seq<char>,
)
    requires
        dep_files(style, content, source, cwd, probes).contains(x),
    ensures
        !same(style, x, clean(style, resolved(style, cwd, source))),
        exists|path: Seq<char>| #[trigger] clean(style, path) == x && kind_at(probes, path) != FileKind::Missing,
{
    let names = dep_names(content);
    let paths = dep_candidates(style, names, source, cwd);
    let found = existing(style, paths, probes);
    let distinct = merged(Seq::empty(), found);
    lemma_merged(Seq::empty(), found);
    lemma_path_order(style);
    lemma_sorted_of(distinct, path_order(style));
    crate::order::lemma_same_items(distinct, dep_files(style, content, source, cwd, probes), x);
    lemma_existing(style, paths, probes, x);
    lemma_candidates(style, names, source, cwd);
    let i = choose|i: int|
        0 <= i < paths.len() && clean(style, #[trigger] paths[i]) == x && kind_at(probes, paths[i]) != FileKind::Missing;
    assert(!same(style, paths[i], clean(style, resolved(style, cwd, source))));
    crate::path::lemma_clean_keeps_parts(style, paths[i]);
}

/// Every file is listed once, whatever the rules call it, and every candidate that is there is
/// listed.
pub proof fn lemma_dep_files_distinct(
    style: PathStyle,
    content: Seq<char>,
    source: Seq<char>,
    cwd: Seq<char>,
    probes: Seq<Probe>,
)
    ensures
        dep_files(style, content, source, cwd, probes).no_duplicates(),
        dep_files(style, content, source, cwd, probes).to_set() == existing(
            style,
            dep_candidates(style, dep_names(content), source, cwd),
            probes,
        ).to_set(),
{
    let found = existing(style, dep_candidates(style, dep_names(content), source, cwd), probes);
    let distinct = merged(Seq::empty(), found);
    let files = dep_files(style, content, source, cwd, probes);
    lemma_merged(Seq::empty(), found);
    lemma_path_order(style);
    lemma_sorted_of(distinct, path_order(style));
    distinct.lemma_multiset_has_no_duplicates();
    files.lemma_multiset_has_no_duplicates_conv();
    assert forall|x: Seq<char>| files.contains(x) <==> found.contains(x) by {
        crate::order::lemma_same_items(distinct, files, x);
    }
    assert(files.to_set() =~= found.to_set());
}

} // verus!
