//! What reading dependency information finds of what was written.

use vstd::prelude::*;
use super::depinfo::{
    all_env_deps, all_files, dep_candidates, dep_files, dep_names, env_dep, env_dep_names, existing, lemma_env_dep_names, line_files,
    rule_colon, separates, token_end, token_start, tokens, unescaped,
};
use crate::context::{lemma_merged, merged};
use crate::order::{lemma_same_items, lemma_sorted_of};
use crate::path::{clean, is_letter, lemma_path_order, lemma_split_joined, path_le, path_order, resolved, same, PathStyle};
use crate::probe::{kind_at, FileKind, Probe};
use crate::text::{is_white, joined, lemma_first_at, only, split_at_char, trimmed, trimmed_end, trimmed_start};

verus! {

// ── Names in rules ──────────────────────────────────────────────────────

/// How a name is written in a rule: a backslash before every space.
pub open spec fn escaped(name: Seq<char>) -> Seq<char>
    decreases name.len(),
{
    if name.len() == 0 {
        name
    } else if name[0] == ' ' {
        seq!['\\', ' '] + escaped(name.skip(1))
    } else {
        seq![name[0]] + escaped(name.skip(1))
    }
}

/// Whether a name can be written in a rule: no white space separates in it but spaces, and no
/// backslash stands before a space or at the end.
pub open spec fn writable(name: Seq<char>) -> bool {
    &&& forall|j: int| 0 <= j < name.len() && separates(#[trigger] name[j]) ==> name[j] == ' '
    &&& forall|j: int| 0 <= j < name.len() && #[trigger] name[j] == '\\' ==> j + 1 < name.len() && name[j + 1] != ' '
}

/// Whether a text neither begins nor ends with white space, and is not empty.
pub open spec fn tight(s: Seq<char>) -> bool {
    s.len() > 0 && !is_white(s[0]) && !is_white(s.last())
}

/// Names as they are written behind the colon of a rule.
pub open spec fn names_text(names: Seq<Seq<char>>) -> Seq<char>
    decreases names.len(),
{
    if names.len() == 0 {
        Seq::empty()
    } else {
        seq![' '] + escaped(names[0]) + names_text(names.drop_first())
    }
}

/// Whether a text can be the target of a rule: its only colon is that of a drive letter.
pub open spec fn is_target(target: Seq<char>) -> bool {
    &&& target.len() > 0
    &&& target[0] != '#'
    &&& !is_white(target[0])
    &&& if target.len() >= 2 && is_letter(target[0]) && target[1] == ':' {
        forall|j: int| 2 <= j < target.len() ==> #[trigger] target[j] != ':'
    } else {
        &&& forall|j: int| 0 <= j < target.len() ==> #[trigger] target[j] != ':'
        &&& !(target.len() == 1 && is_letter(target[0]))
    }
}

/// A rule: a target, a colon, and names.
pub open spec fn rule_text(target: Seq<char>, names: Seq<Seq<char>>) -> Seq<char> {
    target + seq![':'] + names_text(names)
}

/// Reading a name undoes writing it.
proof fn lemma_unescaped(name: Seq<char>)
    ensures
        unescaped(escaped(name)) == name,
        name.len() > 0 ==> escaped(name).len() > 0 && escaped(name)[0] != ' ',
        name.len() > 0 && !is_white(name.last()) ==> escaped(name).last() == name.last(),
        name.len() > 0 && !is_white(name[0]) ==> escaped(name)[0] == name[0],
    decreases name.len(),
{
    if name.len() > 0 {
        let rest = name.skip(1);
        lemma_unescaped(rest);
        let text = escaped(name);
        if name[0] == ' ' {
            assert(text.skip(2) =~= escaped(rest));
            assert(seq![' '] + rest =~= name);
        } else {
            assert(text.skip(1) =~= escaped(rest));
            assert(seq![name[0]] + rest =~= name);
            if text.len() >= 2 {
                assert(text[1] == escaped(rest)[0]);
            }
        }
        if rest.len() > 0 {
            assert(rest.last() == name.last());
            assert(text.last() == escaped(rest).last());
        }
    }
}

/// A name ends where it was written to.
proof fn lemma_token_end(s: Seq<char>, i: int, name: Seq<char>)
    requires
        0 <= i,
        i + escaped(name).len() <= s.len(),
        s.subrange(i, i + escaped(name).len()) == escaped(name),
        writable(name),
        i + escaped(name).len() == s.len() || separates(s[i + escaped(name).len()]),
    ensures
        token_end(s, i) == i + escaped(name).len(),
    decreases name.len(),
{
    let text = escaped(name);
    let n = text.len() as int;
    if name.len() > 0 {
        let rest = name.skip(1);
        assert(s.subrange(i, i + n)[0] == s[i]);
        if name[0] == ' ' {
            assert(s.subrange(i, i + n)[1] == s[i + 1]);
            assert(s[i] == '\\');
            lemma_writable_skip(name, 1);
            assert(s.subrange(i + 2, i + n) =~= text.skip(2));
            assert(text.skip(2) =~= escaped(rest));
            lemma_token_end(s, i + 2, rest);
        } else if name[0] == '\\' {
            assert(name[1] != ' ');
            let more = name.skip(2);
            assert(rest[0] == name[1]);
            assert(rest.skip(1) =~= more);
            assert(escaped(rest) == seq![rest[0]] + escaped(rest.skip(1)));
            assert(text =~= seq!['\\', name[1]] + escaped(more));
            lemma_writable_skip(name, 2);
            assert(s.subrange(i + 2, i + n) =~= text.skip(2));
            assert(text.skip(2) =~= escaped(more));
            lemma_token_end(s, i + 2, more);
        } else {
            assert(!separates(name[0]));
            lemma_writable_skip(name, 1);
            assert(s.subrange(i + 1, i + n) =~= text.skip(1));
            assert(text.skip(1) =~= escaped(rest));
            lemma_token_end(s, i + 1, rest);
        }
    }
}

/// The rest of a name that can be written can be.
proof fn lemma_writable_skip(name: Seq<char>, n: int)
    requires
        writable(name),
        0 <= n <= name.len(),
    ensures
        writable(name.skip(n)),
{
    let rest = name.skip(n);
    assert forall|j: int| 0 <= j < rest.len() && separates(#[trigger] rest[j]) implies rest[j] == ' ' by {
        assert(rest[j] == name[j + n]);
    }
    assert forall|j: int| 0 <= j < rest.len() && #[trigger] rest[j] == '\\' implies j + 1 < rest.len() && rest[j + 1] != ' ' by {
        assert(name[j + n] == '\\');
        assert(rest[j + 1] == name[j + n + 1]);
    }
}

/// Whether all of these names can be written in a rule.
pub open spec fn all_writable(names: Seq<Seq<char>>) -> bool {
    forall|i: int| 0 <= i < names.len() ==> writable(#[trigger] names[i]) && tight(names[i])
}

/// The names behind one are read.
proof fn lemma_tokens_tail(s: Seq<char>, i: int, names: Seq<Seq<char>>)
    requires
        0 <= i <= s.len(),
        s.skip(i) == names_text(names),
        all_writable(names),
    ensures
        tokens(s, i) == names,
    decreases names.len(),
{
    if names.len() == 0 {
        assert(s.skip(i).len() == 0);
        assert(tokens(s, i) =~= names);
    } else {
        let rest = names.drop_first();
        let text = names_text(names);
        let word = escaped(names[0]);
        assert(writable(names[0]) && tight(names[0]));
        lemma_unescaped(names[0]);
        assert(text.len() >= 2);
        assert(s.skip(i).len() == s.len() - i);
        assert(s.skip(i)[0] == s[i]);
        assert(s.skip(i)[1] == s[i + 1]);
        assert(s[i] == ' ');
        assert(s[i + 1] == word[0]);
        assert(word[0] == names[0][0]);
        assert(!separates(s[i + 1])) by {
            assert(!is_white(names[0][0]));
        }
        assert(token_start(s, i + 1) == i + 1);
        assert(token_start(s, i) == i + 1);
        lemma_one_token(s, i + 1, names[0], rest);
        lemma_rest_writable(names);
        lemma_tokens_tail(s, i + 1 + word.len(), rest);
        assert(seq![names[0]] + rest =~= names);
    }
}

/// The rest of the names can be written.
proof fn lemma_rest_writable(names: Seq<Seq<char>>)
    requires
        all_writable(names),
        names.len() > 0,
    ensures
        all_writable(names.drop_first()),
{
    let rest = names.drop_first();
    assert forall|i: int| 0 <= i < rest.len() implies writable(#[trigger] rest[i]) && tight(rest[i]) by {
        assert(rest[i] == names[i + 1]);
    }
}

/// One name is read, and the others follow.
proof fn lemma_one_token(s: Seq<char>, from: int, name: Seq<char>, rest: Seq<Seq<char>>)
    requires
        0 <= from <= s.len(),
        writable(name),
        tight(name),
        s.skip(from) == escaped(name) + names_text(rest) || (from > 0 && s.skip(from - 1) == seq![' '] + escaped(name) + names_text(
            rest,
        )),
    ensures
        from + escaped(name).len() <= s.len(),
        token_end(s, from) == from + escaped(name).len(),
        unescaped(s.subrange(from, from + escaped(name).len())) == name,
        s.skip(from + escaped(name).len()) == names_text(rest),
{
    let word = escaped(name);
    let tail = names_text(rest);
    let n = word.len() as int;
    if s.skip(from) != word + tail {
        let t = s.skip(from - 1);
        assert(t.skip(1) =~= word + tail);
        assert(t.skip(1) =~= s.skip(from));
    }
    let t = s.skip(from);
    assert(t == word + tail);
    assert(t.len() == s.len() - from);
    assert(s.subrange(from, from + n) =~= word) by {
        assert forall|j: int| 0 <= j < n implies s.subrange(from, from + n)[j] == word[j] by {
            assert(t[j] == s[from + j]);
        }
    }
    assert(s.skip(from + n) =~= tail) by {
        assert forall|j: int| 0 <= j < tail.len() implies s.skip(from + n)[j] == tail[j] by {
            assert(t[n + j] == s[from + n + j]);
        }
    }
    if from + n < s.len() {
        assert(s[from + n] == tail[0]) by {
            assert(t[n] == s[from + n]);
        }
        assert(tail[0] == ' ');
    }
    lemma_token_end(s, from, name);
    lemma_unescaped(name);
}

/// A text without white space at its ends stays as it is.
proof fn lemma_trimmed(s: Seq<char>)
    requires
        s.len() == 0 || tight(s),
    ensures
        trimmed(s) == s,
{
}

/// A rule names what it was written with.
pub proof fn lemma_rule_reads_back(target: Seq<char>, names: Seq<Seq<char>>)
    requires
        is_target(target),
        all_writable(names),
    ensures
        line_files(rule_text(target, names)) == names,
{
    let line = rule_text(target, names);
    let text = names_text(names);
    let n = target.len() as int;
    assert(line[0] == target[0]);
    assert(line[n] == ':');
    assert(!is_white(line.last())) by {
        if names.len() > 0 {
            lemma_names_end(names);
            assert(line.last() == text.last());
        } else {
            assert(line.last() == ':');
        }
    }
    lemma_trimmed(line);
    assert(rule_colon(line) == Some(n)) by {
        if n >= 2 && is_letter(target[0]) && target[1] == ':' {
            assert(line[1] == target[1]);
            let after = line.skip(2);
            assert forall|j: int| 0 <= j < n - 2 implies after[j] != ':' by {
                assert(after[j] == target[j + 2]);
            }
            assert(after[n - 2] == line[n]);
            lemma_first_at(after, ':', n - 2);
        } else {
            let after = line.skip(0);
            assert(after =~= line);
            if n >= 2 {
                assert(line[1] == target[1]);
            }
            assert forall|j: int| 0 <= j < n implies line[j] != ':' by {
                assert(line[j] == target[j]);
            }
            lemma_first_at(line, ':', n);
        }
    }
    let right = line.skip(n + 1);
    assert(right =~= text);
    if names.len() == 0 {
        assert(tokens(trimmed(right), 0) =~= names);
    } else {
        let inner = right.drop_first();
        let word = escaped(names[0]);
        let rest = names.drop_first();
        assert(writable(names[0]) && tight(names[0]));
        lemma_unescaped(names[0]);
        assert(inner =~= word + names_text(rest));
        assert(right[0] == ' ');
        assert(inner[0] == names[0][0]);
        lemma_names_end(names);
        assert(inner.last() == right.last());
        assert(trimmed_start(inner) == inner);
        assert(trimmed(right) == inner);
        assert(inner.skip(0) =~= inner);
        assert(token_start(inner, 0) == 0);
        lemma_one_token(inner, 0, names[0], rest);
        lemma_rest_writable(names);
        lemma_tokens_tail(inner, word.len() as int, rest);
        assert(seq![names[0]] + rest =~= names);
    }
}

/// Names end without white space.
proof fn lemma_names_end(names: Seq<Seq<char>>)
    requires
        all_writable(names),
        names.len() > 0,
    ensures
        names_text(names).len() > 1,
        !is_white(names_text(names).last()),
    decreases names.len(),
{
    let rest = names.drop_first();
    let text = names_text(names);
    assert(writable(names[0]) && tight(names[0]));
    lemma_unescaped(names[0]);
    if rest.len() > 0 {
        lemma_rest_writable(names);
        lemma_names_end(rest);
        assert(text.last() == names_text(rest).last());
    } else {
        assert(text.last() == escaped(names[0]).last());
    }
}

/// The names of a rule are set apart by spaces, tabs, form feeds and line ends; by nothing else.
pub proof fn lemma_separators(c: char)
    ensures
        separates(' ') && separates('\t') && separates('\n') && separates('\u{c}') && separates('\r'),
        c != ' ' && c != '\t' && c != '\n' && c != '\u{c}' && c != '\r' ==> !separates(c),
{
}

/// A comment names no file.
pub proof fn lemma_comment_names_no_file(text: Seq<char>)
    ensures
        line_files(seq!['#'] + text) == Seq::<Seq<char>>::empty(),
{
    let line = seq!['#'] + text;
    lemma_kept_start(line, 0);
    assert(trimmed_start(line) == line);
}

/// What is not white space stays, and all before it.
proof fn lemma_kept_start(s: Seq<char>, k: int)
    requires
        0 <= k < s.len(),
        !is_white(s[k]),
    ensures
        trimmed_end(s).len() > k,
        trimmed_end(s).is_prefix_of(s),
    decreases s.len(),
{
    if is_white(s.last()) {
        assert(s.drop_last()[k] == s[k]);
        lemma_kept_start(s.drop_last(), k);
        let t = trimmed_end(s);
        assert(t == s.drop_last().take(t.len() as int));
        assert(s.drop_last().take(t.len() as int) =~= s.take(t.len() as int));
    } else {
        assert(s =~= s.take(s.len() as int));
    }
}

// ── Files ───────────────────────────────────────────────────────────────

/// Every file that some line names is listed, and no other.
proof fn lemma_all_files(lines: Seq<Seq<char>>, name: Seq<char>)
    ensures
        all_files(lines).contains(name) <==> exists|i: int|
            0 <= i < lines.len() && line_files(#[trigger] lines[i]).contains(name),
    decreases lines.len(),
{
    if lines.len() > 0 {
        let init = lines.drop_last();
        lemma_all_files(init, name);
        let before = all_files(init);
        let more = line_files(lines.last());
        let now = all_files(lines);
        assert(lines[lines.len() - 1] == lines.last());
        if now.contains(name) {
            let j = now.index_of(name);
            if j < before.len() {
                assert(before[j] == name);
                let i = choose|i: int| 0 <= i < init.len() && line_files(#[trigger] init[i]).contains(name);
                assert(lines[i] == init[i]);
            } else {
                assert(more[j - before.len()] == name);
                assert(line_files(lines[lines.len() - 1]).contains(name));
            }
        }
        if exists|i: int| 0 <= i < lines.len() && line_files(#[trigger] lines[i]).contains(name) {
            let i = choose|i: int| 0 <= i < lines.len() && line_files(#[trigger] lines[i]).contains(name);
            if i < init.len() {
                assert(init[i] == lines[i]);
                let j = before.index_of(name);
                assert(now[j] == name);
            } else {
                let j = more.index_of(name);
                assert(now[before.len() + j] == name);
            }
        }
    }
}

/// A name but that of the source leads to a candidate, and every candidate comes from one.
proof fn lemma_candidate(style: PathStyle, names: Seq<Seq<char>>, source: Seq<char>, cwd: Seq<char>, path: Seq<char>)
    ensures
        dep_candidates(style, names, source, cwd).contains(path) <==> !same(style, path, clean(style, resolved(style, cwd, source)))
            && exists|i: int| 0 <= i < names.len() && resolved(style, cwd, #[trigger] names[i]) == path,
    decreases names.len(),
{
    if names.len() > 0 {
        let init = names.drop_last();
        lemma_candidate(style, init, source, cwd, path);
        let before = dep_candidates(style, init, source, cwd);
        let now = dep_candidates(style, names, source, cwd);
        let last = resolved(style, cwd, names.last());
        assert(names[names.len() - 1] == names.last());
        if now.contains(path) {
            let j = now.index_of(path);
            if j < before.len() {
                assert(before[j] == path);
                let i = choose|i: int| 0 <= i < init.len() && resolved(style, cwd, #[trigger] init[i]) == path;
                assert(names[i] == init[i]);
            } else {
                assert(resolved(style, cwd, names[names.len() - 1]) == path);
            }
        }
        if !same(style, path, clean(style, resolved(style, cwd, source))) && exists|i: int|
            0 <= i < names.len() && resolved(style, cwd, #[trigger] names[i]) == path {
            let i = choose|i: int| 0 <= i < names.len() && resolved(style, cwd, #[trigger] names[i]) == path;
            if i < init.len() {
                assert(init[i] == names[i]);
                assert(before.contains(path));
                assert(now[before.index_of(path)] == path);
            } else {
                assert(now.last() == path);
                assert(now[now.len() - 1] == path);
            }
        }
    }
}

/// A path where something stands is found.
proof fn lemma_found(style: PathStyle, paths: Seq<Seq<char>>, probes: Seq<Probe>, path: Seq<char>)
    requires
        paths.contains(path),
        kind_at(probes, path) != FileKind::Missing,
    ensures
        existing(style, paths, probes).contains(clean(style, path)),
    decreases paths.len(),
{
    let init = paths.drop_last();
    let before = existing(style, init, probes);
    let now = existing(style, paths, probes);
    let i = paths.index_of(path);
    if i < init.len() {
        assert(init[i] == path);
        lemma_found(style, init, probes, path);
        let j = before.index_of(clean(style, path));
        assert(now[j] == before[j]);
    } else {
        assert(now[now.len() - 1] == clean(style, path));
    }
}

/// Every candidate at which something stands is among the files, in its shortest spelling, whatever
/// it is called.
pub proof fn lemma_candidates_are_listed(
    style: PathStyle,
    content: Seq<char>,
    source: Seq<char>,
    cwd: Seq<char>,
    probes: Seq<Probe>,
    name: Seq<char>,
)
    requires
        dep_names(content).contains(name),
        !same(style, resolved(style, cwd, name), clean(style, resolved(style, cwd, source))),
        kind_at(probes, resolved(style, cwd, name)) != FileKind::Missing,
    ensures
        dep_files(style, content, source, cwd, probes).contains(clean(style, resolved(style, cwd, name))),
{
    let names = dep_names(content);
    let path = resolved(style, cwd, name);
    let paths = dep_candidates(style, names, source, cwd);
    assert(resolved(style, cwd, names[names.index_of(name)]) == path);
    lemma_candidate(style, names, source, cwd, path);
    lemma_found(style, paths, probes, path);
    let found = existing(style, paths, probes);
    let distinct = merged(Seq::empty(), found);
    lemma_merged(Seq::empty(), found);
    lemma_path_order(style);
    lemma_sorted_of(distinct, path_order(style));
    assert(distinct.contains(clean(style, path)));
    lemma_same_items(distinct, dep_files(style, content, source, cwd, probes), clean(style, path));
}

/// The files are in the order of paths.
pub proof fn lemma_files_in_order(style: PathStyle, content: Seq<char>, source: Seq<char>, cwd: Seq<char>, probes: Seq<Probe>, i: int, j: int)
    requires
        0 <= i < j < dep_files(style, content, source, cwd, probes).len(),
    ensures
        path_le(
            style,
            dep_files(style, content, source, cwd, probes)[i],
            dep_files(style, content, source, cwd, probes)[j],
        ),
{
    let found = existing(style, dep_candidates(style, dep_names(content), source, cwd), probes);
    lemma_path_order(style);
    lemma_sorted_of(merged(Seq::empty(), found), path_order(style));
    let files = dep_files(style, content, source, cwd, probes);
    assert(path_order(style)(files[i], files[j]));
}

/// The lines that a text was made of are read.
proof fn lemma_lines(lines: Seq<Seq<char>>)
    requires
        lines.len() > 0,
        one_line_each(lines),
    ensures
        split_at_char(joined(lines, seq!['\n']), '\n') == lines,
{
    let stop = only('\n');
    assert forall|i: int, j: int|
        #![trigger lines[i][j]]
        0 <= i < lines.len() && 0 <= j < lines[i].len() implies !stop(lines[i][j]) by {
        assert(!lines[i].contains('\n'));
        assert(lines[i].contains(lines[i][j]));
    }
    lemma_split_joined(lines, '\n', stop);
}

/// Whether each text is one line.
pub open spec fn one_line_each(lines: Seq<Seq<char>>) -> bool {
    forall|i: int| 0 <= i < lines.len() ==> !(#[trigger] lines[i]).contains('\n')
}

/// A file that a rule names is among the files that are read, wherever in the dependency
/// information the rule stands and wherever in the rule the name does, unless it is the source or
/// nothing stands there.
pub proof fn lemma_named_file_is_listed(
    style: PathStyle,
    lines: Seq<Seq<char>>,
    at: int,
    target: Seq<char>,
    names: Seq<Seq<char>>,
    k: int,
    source: Seq<char>,
    cwd: Seq<char>,
    probes: Seq<Probe>,
)
    requires
        0 <= at < lines.len(),
        one_line_each(lines),
        is_target(target),
        all_writable(names),
        lines[at] == rule_text(target, names),
        0 <= k < names.len(),
        !same(style, resolved(style, cwd, names[k]), clean(style, resolved(style, cwd, source))),
        kind_at(probes, resolved(style, cwd, names[k])) != FileKind::Missing,
    ensures
        dep_files(style, joined(lines, seq!['\n']), source, cwd, probes).contains(clean(style, resolved(style, cwd, names[k]))),
{
    let content = joined(lines, seq!['\n']);
    let name = names[k];
    lemma_lines(lines);
    lemma_rule_reads_back(target, names);
    assert(names.contains(name));
    assert(line_files(lines[at]).contains(name));
    lemma_all_files(lines, name);
    lemma_merged(Seq::empty(), all_files(lines));
    assert(dep_names(content).contains(name));
    lemma_candidates_are_listed(style, content, source, cwd, probes, name);
}

/// Every file that is listed was named by some line, as it is seen from the working directory, is
/// not the source, and something stands there.
pub proof fn lemma_listed_file_is_named(
    style: PathStyle,
    lines: Seq<Seq<char>>,
    source: Seq<char>,
    cwd: Seq<char>,
    probes: Seq<Probe>,
    x: Seq<char>,
)
    requires
        lines.len() > 0,
        one_line_each(lines),
        dep_files(style, joined(lines, seq!['\n']), source, cwd, probes).contains(x),
    ensures
        exists|i: int, name: Seq<char>|
            #![trigger line_files(lines[i]).contains(name)]
            0 <= i < lines.len() && line_files(lines[i]).contains(name) && clean(style, resolved(style, cwd, name)) == x && !same(
                style,
                resolved(style, cwd, name),
                clean(style, resolved(style, cwd, source)),
            ) && kind_at(probes, resolved(style, cwd, name)) != FileKind::Missing,
{
    let content = joined(lines, seq!['\n']);
    lemma_lines(lines);
    let names = dep_names(content);
    let paths = dep_candidates(style, names, source, cwd);
    let found = existing(style, paths, probes);
    let distinct = merged(Seq::empty(), found);
    lemma_merged(Seq::empty(), found);
    lemma_path_order(style);
    lemma_sorted_of(distinct, path_order(style));
    lemma_same_items(distinct, dep_files(style, content, source, cwd, probes), x);
    assert(found.contains(x));
    super::depinfo::lemma_existing(style, paths, probes, x);
    let i = choose|i: int|
        0 <= i < paths.len() && clean(style, #[trigger] paths[i]) == x && kind_at(probes, paths[i]) != FileKind::Missing;
    assert(paths.contains(paths[i]));
    lemma_candidate(style, names, source, cwd, paths[i]);
    let j = choose|j: int| 0 <= j < names.len() && resolved(style, cwd, #[trigger] names[j]) == paths[i];
    let name = names[j];
    assert(names.contains(name));
    lemma_merged(Seq::empty(), all_files(lines));
    assert(all_files(lines).contains(name));
    lemma_all_files(lines, name);
    let l = choose|l: int| 0 <= l < lines.len() && line_files(#[trigger] lines[l]).contains(name);
    assert(line_files(lines[l]).contains(name));
}

// ── Variables ───────────────────────────────────────────────────────────

/// The variables of the lines.
proof fn lemma_all_env_deps(lines: Seq<Seq<char>>, name: Seq<char>)
    ensures
        all_env_deps(lines).contains(name) <==> exists|i: int| 0 <= i < lines.len() && env_dep(#[trigger] lines[i]) == Some(name),
    decreases lines.len(),
{
    if lines.len() > 0 {
        let init = lines.drop_last();
        lemma_all_env_deps(init, name);
        let before = all_env_deps(init);
        let now = all_env_deps(lines);
        assert(lines[lines.len() - 1] == lines.last());
        if now.contains(name) {
            let j = now.index_of(name);
            if j < before.len() {
                assert(before[j] == name);
                let i = choose|i: int| 0 <= i < init.len() && env_dep(#[trigger] init[i]) == Some(name);
                assert(lines[i] == init[i]);
            } else {
                assert(env_dep(lines[lines.len() - 1]) == Some(name));
            }
        }
        if exists|i: int| 0 <= i < lines.len() && env_dep(#[trigger] lines[i]) == Some(name) {
            let i = choose|i: int| 0 <= i < lines.len() && env_dep(#[trigger] lines[i]) == Some(name);
            if i < init.len() {
                assert(init[i] == lines[i]);
                let j = before.index_of(name);
                assert(now[j] == name);
            } else {
                assert(now[now.len() - 1] == name);
            }
        }
    }
}

/// A line that says that a variable was read: its name, with its value where it was set.
pub open spec fn env_line(name: Seq<char>, value: Option<Seq<char>>) -> Seq<char> {
    match value {
        Some(v) => "# env-dep:"@ + name + seq!['='] + v,
        None => "# env-dep:"@ + name,
    }
}

/// Such a line gives the name of the variable, whatever its value was.
pub proof fn lemma_env_line_reads_back(name: Seq<char>, value: Option<Seq<char>>)
    requires
        tight(name),
        !name.contains('='),
    ensures
        env_dep(env_line(name, value)) == Some(name),
{
    reveal_strlit("# env-dep:");
    let tag = "# env-dep:"@;
    let line = env_line(name, value);
    let n = (tag + name).len() as int;
    assert(line[0] == '#');
    assert(trimmed_start(line) == line);
    assert(line[n - 1] == name.last());
    lemma_kept_start(line, n - 1);
    if value is Some {
        assert(line[n] == '=');
        lemma_kept_start(line, n);
    }
    let inner = trimmed(line);
    let m = inner.len() as int;
    assert(inner == line.take(m));
    assert(inner.take(tag.len() as int) =~= tag);
    let rest = inner.skip(tag.len() as int);
    assert forall|j: int| 0 <= j < name.len() implies rest[j] != '=' by {
        assert(rest[j] == line[tag.len() + j]);
        assert(line[tag.len() + j] == name[j]);
        assert(name.contains(name[j]));
    }
    if value is Some {
        assert(rest[name.len() as int] == line[n]);
    } else {
        assert(rest.len() == name.len());
    }
    lemma_first_at(rest, '=', name.len() as int);
    assert(rest.take(name.len() as int) =~= name);
    lemma_trimmed(name);
}

/// A variable that some line says was read is among the variables.
pub proof fn lemma_named_variable_is_listed(lines: Seq<Seq<char>>, at: int, name: Seq<char>, value: Option<Seq<char>>)
    requires
        0 <= at < lines.len(),
        one_line_each(lines),
        tight(name),
        !name.contains('='),
        lines[at] == env_line(name, value),
    ensures
        env_dep_names(joined(lines, seq!['\n'])).contains(name),
{
    lemma_lines(lines);
    lemma_env_line_reads_back(name, value);
    assert(env_dep(lines[at]) == Some(name));
    lemma_all_env_deps(lines, name);
    lemma_env_dep_names(joined(lines, seq!['\n']), name);
}

/// A line that does not begin with the mark names no variable.
pub proof fn lemma_other_line_names_no_variable(line: Seq<char>)
    requires
        tight(line),
        !"# env-dep:"@.is_prefix_of(line),
    ensures
        env_dep(line) is None,
{
    lemma_trimmed(line);
}

} // verus!
