//! What holds of paths as users write them.

use vstd::prelude::*;
use crate::order::{lemma_lex_antisymmetric, lex_le};
use crate::path::{
    absolute, below, clean, extension_of, is_letter, is_name, joined_path, key_form, lemma_clean_keeps_parts,
    lemma_join_parts, lemma_parts_total, name_of, part_rank, parts, parts_le, path_le, ranked, resolved, same_part,
    stem_of, under, PathStyle,
};
use crate::text::{ascii_lower, last_at};

verus! {

// ── Absolute paths ──────────────────────────────────────────────────────

/// On Unix the absolute paths are those that begin with a slash.
pub proof fn lemma_absolute_on_unix(s: Seq<char>)
    ensures
        absolute(PathStyle::Unix, s) <==> s.len() > 0 && s[0] == '/',
{
}

/// On Windows a path that begins with a drive letter, a colon and a slash of either kind is
/// absolute; without the slash behind the colon it is not, nor is one that begins with one slash or
/// with none.
pub proof fn lemma_absolute_on_windows(s: Seq<char>)
    ensures
        s.len() >= 3 && is_letter(s[0]) && s[1] == ':' && (s[2] == '\\' || s[2] == '/') ==> absolute(PathStyle::Windows, s),
        s.len() >= 2 && is_letter(s[0]) && s[1] == ':' && (s.len() == 2 || (s[2] != '\\' && s[2] != '/')) ==> !absolute(
            PathStyle::Windows,
            s,
        ),
        s.len() >= 1 && (s[0] == '\\' || s[0] == '/') && (s.len() == 1 || (s[1] != '\\' && s[1] != '/')) ==> !absolute(
            PathStyle::Windows,
            s,
        ),
        (s.len() < 2 || s[1] != ':') && (s.len() == 0 || (s[0] != '\\' && s[0] != '/')) ==> !absolute(PathStyle::Windows, s),
{
}

/// A name is seen from a directory unless it is absolute.
pub proof fn lemma_resolved(style: PathStyle, dir: Seq<char>, name: Seq<char>)
    ensures
        absolute(style, name) ==> resolved(style, dir, name) == name,
        !absolute(style, name) ==> resolved(style, dir, name) == joined_path(style, dir, name),
{
}

/// On Unix a name is put behind its directory and a slash.
pub proof fn lemma_joined_on_unix(dir: Seq<char>, name: Seq<char>)
    requires
        name.len() == 0 || name[0] != '/',
    ensures
        dir.len() == 0 ==> joined_path(PathStyle::Unix, dir, name) == name,
        dir.len() > 0 && dir.last() == '/' ==> joined_path(PathStyle::Unix, dir, name) == dir + name,
        dir.len() > 0 && dir.last() != '/' ==> joined_path(PathStyle::Unix, dir, name) == dir + seq!['/'] + name,
{
    if dir.len() == 0 {
        assert(joined_path(PathStyle::Unix, dir, name) =~= name);
    }
}

/// On Unix what is seen from an absolute directory lies below it.
pub proof fn lemma_joined_is_below(dir: Seq<char>, name: Seq<char>)
    requires
        absolute(PathStyle::Unix, dir),
        name.len() == 0 || name[0] != '/',
    ensures
        under(PathStyle::Unix, joined_path(PathStyle::Unix, dir, name), dir),
        below(PathStyle::Unix, joined_path(PathStyle::Unix, dir, name), dir) is Some,
{
    let style = PathStyle::Unix;
    lemma_join_parts(style, dir, name);
    let p = parts(style, joined_path(style, dir, name));
    let r = parts(style, dir);
    assert forall|i: int| 0 <= i < r.len() implies same_part(style, #[trigger] p[i], r[i]) by {
        assert(p[i] == r[i]);
    }
}

// ── Spellings ───────────────────────────────────────────────────────────

/// The spelling of a path in keys is its shortest one; on Windows in lower case, letter by letter.
pub proof fn lemma_key_form(style: PathStyle, s: Seq<char>)
    ensures
        style == PathStyle::Unix ==> key_form(style, s) == clean(style, s),
        style == PathStyle::Windows ==> key_form(style, s).len() == clean(style, s).len() && forall|i: int|
            0 <= i < clean(style, s).len() ==> #[trigger] key_form(style, s)[i] == ascii_lower(clean(style, s)[i]),
        parts(style, clean(style, s)) == parts(style, s),
{
    lemma_clean_keeps_parts(style, s);
}

// ── File names ──────────────────────────────────────────────────────────

/// A file name is its stem and its extension with a dot between, the last one; without a dot, or
/// with a leading one only, it is all stem.
pub proof fn lemma_stem_and_extension(style: PathStyle, s: Seq<char>)
    ensures
        name_of(style, s) is None ==> stem_of(style, s) is None && extension_of(style, s) is None,
        name_of(style, s) matches Some(name) ==> stem_of(style, s) is Some && match extension_of(style, s) {
            Some(ext) => name == stem_of(style, s)->0 + seq!['.'] + ext && !ext.contains('.') && stem_of(style, s)->0.len() > 0,
            None => name == stem_of(style, s)->0 && forall|i: int| 0 < i < name.len() ==> #[trigger] name[i] != '.',
        },
{
    if let Some(name) = name_of(style, s) {
        lemma_last(name, '.');
        let at = last_at(name, '.');
        if at > 0 {
            let ext = name.skip(at + 1);
            assert(name =~= name.take(at) + seq!['.'] + ext);
            if ext.contains('.') {
                let i = ext.index_of('.');
                assert(name[at + 1 + i] == '.');
            }
        }
    }
}

/// Where the last occurrence stands.
proof fn lemma_last(s: Seq<char>, c: char)
    ensures
        -1 <= last_at(s, c) < s.len(),
        last_at(s, c) >= 0 ==> s[last_at(s, c)] == c,
        forall|i: int| last_at(s, c) < i < s.len() ==> #[trigger] s[i] != c,
    decreases s.len(),
{
    if s.len() > 0 && s.last() != c {
        let init = s.drop_last();
        lemma_last(init, c);
        assert forall|i: int| last_at(s, c) < i < s.len() implies #[trigger] s[i] != c by {
            if i < init.len() {
                assert(init[i] == s[i]);
            }
        }
    }
}

// ── Order ───────────────────────────────────────────────────────────────

/// Texts are ordered by the first character in which they differ, and a text before what continues
/// it.
pub proof fn lemma_texts_in_order(a: Seq<char>, b: Seq<char>, i: int)
    requires
        0 <= i <= a.len(),
        i < b.len(),
        forall|j: int| 0 <= j < i ==> a[j] == b[j],
        i == a.len() || a[i] < b[i],
    ensures
        lex_le(a, b),
        !lex_le(b, a),
    decreases i,
{
    if i > 0 {
        let (x, y) = (a.drop_first(), b.drop_first());
        assert(a[0] == b[0]);
        assert forall|j: int| 0 <= j < i - 1 implies x[j] == y[j] by {
            assert(x[j] == a[j + 1] && y[j] == b[j + 1]);
        }
        if i < a.len() {
            assert(x[i - 1] == a[i]);
        }
        assert(y[i - 1] == b[i]);
        lemma_texts_in_order(x, y, i - 1);
    }
}

/// Ranked parts are ordered by the first in which they differ.
proof fn lemma_parts_order(a: Seq<Seq<char>>, b: Seq<Seq<char>>, i: int)
    requires
        0 <= i <= a.len(),
        i < b.len(),
        forall|j: int| 0 <= j < i ==> a[j] == b[j],
        i == a.len() || (a[i] != b[i] && lex_le(a[i], b[i])),
    ensures
        parts_le(a, b),
        !parts_le(b, a),
    decreases i,
{
    if i > 0 {
        let (x, y) = (a.drop_first(), b.drop_first());
        assert(a[0] == b[0]);
        assert forall|j: int| 0 <= j < i - 1 implies x[j] == y[j] by {
            assert(x[j] == a[j + 1] && y[j] == b[j + 1]);
        }
        if i < a.len() {
            assert(x[i - 1] == a[i]);
        }
        assert(y[i - 1] == b[i]);
        lemma_parts_order(x, y, i - 1);
    } else if i < a.len() {
        if lex_le(b[0], a[0]) {
            lemma_lex_antisymmetric(a[0], b[0]);
        }
    }
}

/// Paths are ordered by the first component in which they differ, not by their texts, and a
/// directory before what lies below it.
pub proof fn lemma_paths_in_order(style: PathStyle, a: Seq<char>, b: Seq<char>, i: int)
    requires
        0 <= i <= parts(style, a).len(),
        i < parts(style, b).len(),
        forall|j: int| 0 <= j < i ==> parts(style, a)[j] == parts(style, b)[j],
        i < parts(style, a).len() ==> is_name(style, parts(style, a)[i]) && is_name(style, parts(style, b)[i]) && parts(style, a)[i]
            != parts(style, b)[i] && lex_le(parts(style, a)[i], parts(style, b)[i]),
    ensures
        path_le(style, a, b),
        !path_le(style, b, a),
{
    let (p, q) = (parts(style, a), parts(style, b));
    let (x, y) = (ranked(style, a), ranked(style, b));
    assert forall|j: int| 0 <= j < i implies x[j] == y[j] by {
        assert(p[j] == q[j]);
    }
    if i < p.len() {
        let r = seq![part_rank(style, p[i])];
        assert(part_rank(style, p[i]) == part_rank(style, q[i]));
        assert(x[i] == r + p[i] && y[i] == r + q[i]);
        assert(x[i].drop_first() =~= p[i]);
        assert(y[i].drop_first() =~= q[i]);
        assert(x[i] != y[i]);
        assert(lex_le(x[i], y[i]));
    }
    lemma_parts_order(x, y, i);
    if x == y {
        lemma_parts_total(x, y);
    }
}

} // verus!
