//! Paths as texts, read by their parts.
//!
//! A path is a prefix and a root, where it has them, and the components below. Only Windows paths
//! have a prefix: a drive, a share, a device, or something verbatim behind `\\?\`. Empty components
//! and components that say "here" carry no meaning, except a leading `.` of a path without a root
//! and a `.` in a verbatim path.

use vstd::prelude::*;
use vstd::relations::{antisymmetric, reflexive, sorted_by, strongly_connected, total_ordering, transitive};
use crate::order::{lemma_lex_antisymmetric, lemma_lex_total, lemma_lex_transitive, lemma_same_images, lemma_same_items, lemma_sorted_is, lex_le, sort, sorted_of, text_le, Ranked};
use crate::text::{
    ascii_lower, chars, join_from, joined, lemma_split_nonempty, lemma_split_pieces, lower_ascii, same_ignoring_ascii_case,
    same_text, split, text_of, to_lower, views,
};

verus! {

/// How paths are written: with `/` alone, or with drive letters and both slashes.
#[derive(Clone, Copy, Debug, PartialEq, Eq, Structural)]
pub enum PathStyle {
    /// `/` separates components; case matters.
    Unix,
    /// `/` and `\` separate components, drive letters root a path, keys ignore ASCII case.
    Windows,
}

/// Whether `c` separates components.
pub open spec fn is_sep(style: PathStyle, c: char) -> bool {
    c == '/' || (style == PathStyle::Windows && c == '\\')
}

/// Whether `c` is an ASCII letter.
pub open spec fn is_letter(c: char) -> bool {
    ('a' <= c <= 'z') || ('A' <= c <= 'Z')
}

/// The component that says "here".
pub open spec fn here() -> Seq<char> {
    seq!['.']
}

/// The component that says "one up".
pub open spec fn up() -> Seq<char> {
    seq!['.', '.']
}

/// The separator that paths are joined with.
pub open spec fn main_sep(style: PathStyle) -> char {
    match style {
        PathStyle::Unix => '/',
        PathStyle::Windows => '\\',
    }
}

/// The first position from `i` on where `stop` holds, or the length of `s`.
pub open spec fn until(s: Seq<char>, i: int, stop: spec_fn(char) -> bool) -> int
    decreases s.len() - i,
{
    if 0 <= i < s.len() && !stop(s[i]) {
        until(s, i + 1, stop)
    } else {
        i
    }
}

/// Where the two names that begin at `i` end, one separator between them; where the second is
/// missing or empty, where the first ends.
pub open spec fn two_names(s: Seq<char>, i: int, stop: spec_fn(char) -> bool) -> int {
    let first = until(s, i, stop);
    if first < s.len() && until(s, first + 1, stop) > first + 1 {
        until(s, first + 1, stop)
    } else {
        first
    }
}

/// Whether the path begins with a drive letter.
pub open spec fn has_drive(style: PathStyle, s: Seq<char>) -> bool {
    style == PathStyle::Windows && s.len() >= 2 && is_letter(s[0]) && s[1] == ':'
}

/// Whether the path begins with two separators.
pub open spec fn two_seps(style: PathStyle, s: Seq<char>) -> bool {
    s.len() >= 2 && is_sep(style, s[0]) && is_sep(style, s[1])
}

/// Whether the path begins with `\\?\`. Below such a prefix only `\` separates, and `.` is a
/// component like others.
pub open spec fn verbatim(style: PathStyle, s: Seq<char>) -> bool {
    style == PathStyle::Windows && s.len() >= 4 && s[0] == '\\' && s[1] == '\\' && s[2] == '?' && s[3] == '\\'
}

/// Whether `UNC` and a separator follow `\\?\`.
pub open spec fn verbatim_share(style: PathStyle, s: Seq<char>) -> bool {
    verbatim(style, s) && s.len() >= 8 && s[4] == 'U' && s[5] == 'N' && s[6] == 'C' && is_sep(style, s[7])
}

/// What separates the components of a path; `v` says that it is verbatim.
pub open spec fn stops(style: PathStyle, v: bool) -> spec_fn(char) -> bool {
    |c: char|
        if v {
            c == '\\'
        } else {
            is_sep(style, c)
        }
}

/// How many characters of `s` write its prefix. Only Windows paths have one: a drive (`C:`), a
/// share (`\\server\share`), a device (`\\.\COM1`), or one of these or another name verbatim
/// (`\\?\C:`, `\\?\UNC\server\share`, `\\?\name`).
pub open spec fn prefix_len(style: PathStyle, s: Seq<char>) -> int {
    if style == PathStyle::Unix {
        0
    } else if verbatim(style, s) {
        if verbatim_share(style, s) {
            two_names(s, 8, stops(style, true))
        } else if s.len() >= 6 && is_letter(s[4]) && s[5] == ':' && (s.len() == 6 || is_sep(style, s[6])) {
            6
        } else {
            until(s, 4, stops(style, true))
        }
    } else if two_seps(style, s) {
        let server = until(s, 2, stops(style, false));
        if s.len() >= 4 && s[2] == '.' && is_sep(style, s[3]) {
            until(s, 4, stops(style, false))
        } else if server > 2 && two_names(s, 2, stops(style, false)) > server {
            two_names(s, 2, stops(style, false))
        } else {
            0
        }
    } else if has_drive(style, s) {
        2
    } else {
        0
    }
}

/// Whether a separator follows the prefix, or leads the path where there is no prefix.
pub open spec fn has_slash(style: PathStyle, s: Seq<char>) -> bool {
    prefix_len(style, s) < s.len() && is_sep(style, s[prefix_len(style, s)])
}

/// Whether the path has a root: a separator after the prefix, or a share or a device, which are
/// rooted by themselves.
pub open spec fn rooted(style: PathStyle, s: Seq<char>) -> bool {
    has_slash(style, s) || (prefix_len(style, s) > 0 && !verbatim(style, s) && !has_drive(style, s))
}

/// How many characters of `s` write its prefix and its root.
pub open spec fn lead_len(style: PathStyle, s: Seq<char>) -> int {
    if has_slash(style, s) {
        prefix_len(style, s) + 1
    } else {
        prefix_len(style, s)
    }
}

/// `c`, and `/` for every separator.
pub open spec fn slash(style: PathStyle, c: char) -> char {
    if is_sep(style, c) {
        '/'
    } else {
        c
    }
}

/// The prefix of the path `s`, in one spelling.
pub open spec fn prefix_text(style: PathStyle, s: Seq<char>) -> Seq<char> {
    let n = prefix_len(style, s);
    if verbatim_share(style, s) {
        s.take(7) + seq!['\\'] + s.subrange(8, n)
    } else if verbatim(style, s) {
        s.take(n)
    } else {
        Seq::new(n as nat, |i: int| slash(style, s[i]))
    }
}

/// The part for a root. It is what no component can be: a separator.
pub open spec fn root_part(style: PathStyle) -> Seq<char> {
    seq![main_sep(style)]
}

/// The prefix and the root of the path `s`, where it has them. A prefix is set apart from
/// components by a separator in front.
pub open spec fn leads(style: PathStyle, s: Seq<char>) -> Seq<Seq<char>> {
    (if prefix_len(style, s) > 0 {
        seq![root_part(style) + prefix_text(style, s)]
    } else {
        Seq::empty()
    }) + (if rooted(style, s) {
        seq![root_part(style)]
    } else {
        Seq::empty()
    })
}

/// Whether a part is a prefix or a root.
pub open spec fn is_lead(style: PathStyle, part: Seq<char>) -> bool {
    part.len() > 0 && part[0] == main_sep(style)
}

/// Whether a part is a prefix.
pub open spec fn is_prefix_part(style: PathStyle, part: Seq<char>) -> bool {
    is_lead(style, part) && part.len() > 1
}

/// Whether a part is a verbatim prefix.
pub open spec fn is_verbatim_part(style: PathStyle, part: Seq<char>) -> bool {
    is_lead(style, part) && verbatim(style, part.skip(1))
}

/// Whether a part is the prefix for a drive: drive letters are the same in either case.
pub open spec fn is_drive_part(style: PathStyle, part: Seq<char>) -> bool {
    is_lead(style, part) && ((part.len() == 3 && has_drive(style, part.skip(1))) || (part.len() == 7 && verbatim(
        style,
        part.skip(1),
    ) && has_drive(style, part.skip(5))))
}

/// How many of the first parts are prefixes and roots.
pub open spec fn lead_count(style: PathStyle, p: Seq<Seq<char>>) -> int {
    if p.len() == 0 || !is_lead(style, p[0]) {
        0
    } else if p.len() == 1 || !is_lead(style, p[1]) {
        1
    } else {
        2
    }
}

/// How a prefix or a root is written.
pub open spec fn lead_text(style: PathStyle, part: Seq<char>) -> Seq<char> {
    if is_prefix_part(style, part) {
        part.skip(1)
    } else {
        seq!['/']
    }
}

/// How the first `k` parts are written, which are prefixes and roots.
pub open spec fn leads_text(style: PathStyle, p: Seq<Seq<char>>, k: int) -> Seq<char> {
    if k == 2 {
        lead_text(style, p[0]) + lead_text(style, p[1])
    } else if k == 1 {
        lead_text(style, p[0])
    } else {
        Seq::empty()
    }
}

/// How a root is written behind a verbatim prefix. Where a share lacks its name, the separator
/// that stands for the missing name is written too.
pub open spec fn verbatim_root(style: PathStyle, prefix: Seq<char>) -> Seq<char> {
    let text = prefix.skip(1);
    if verbatim_share(style, text) && until(text, 8, stops(style, true)) == text.len() {
        seq!['\\', '\\']
    } else {
        seq!['\\']
    }
}

/// The components among `pieces`: not the empty ones, and `.` only where it leads a path without a
/// root.
pub open spec fn kept(pieces: Seq<Seq<char>>, rooted: bool) -> Seq<Seq<char>>
    decreases pieces.len(),
{
    if pieces.len() == 0 {
        Seq::empty()
    } else {
        let init = kept(pieces.drop_last(), rooted);
        let last = pieces.last();
        if last.len() == 0 || (last == here() && (rooted || pieces.len() > 1)) {
            init
        } else {
            init.push(last)
        }
    }
}

/// The pieces that are not empty.
pub open spec fn filled(pieces: Seq<Seq<char>>) -> Seq<Seq<char>>
    decreases pieces.len(),
{
    if pieces.len() == 0 {
        Seq::empty()
    } else if pieces.last().len() == 0 {
        filled(pieces.drop_last())
    } else {
        filled(pieces.drop_last()).push(pieces.last())
    }
}

/// The components of the path `s`.
pub open spec fn names(style: PathStyle, s: Seq<char>) -> Seq<Seq<char>> {
    let pieces = split(s.skip(lead_len(style, s)), stops(style, verbatim(style, s)));
    if verbatim(style, s) {
        filled(pieces)
    } else {
        kept(pieces, rooted(style, s))
    }
}

/// The parts of the path `s`: its prefix and its root, where it has them, then its components.
pub open spec fn parts(style: PathStyle, s: Seq<char>) -> Seq<Seq<char>> {
    leads(style, s) + names(style, s)
}

/// The path with these parts.
pub open spec fn render(style: PathStyle, p: Seq<Seq<char>>) -> Seq<char> {
    let k = lead_count(style, p);
    if p.len() > 0 && is_verbatim_part(style, p[0]) {
        p[0].skip(1) + (if k == 2 {
            verbatim_root(style, p[0])
        } else {
            Seq::empty()
        }) + joined(p.skip(k), seq!['\\'])
    } else {
        leads_text(style, p, k) + joined(p.skip(k), seq!['/'])
    }
}

/// The path `s` in its shortest spelling. A verbatim path is spelled as it is.
pub open spec fn clean(style: PathStyle, s: Seq<char>) -> Seq<char> {
    if verbatim(style, s) {
        s
    } else {
        render(style, parts(style, s))
    }
}

/// The spelling of the path `s` in cache keys: shortest, and in lower case where case does not
/// tell files apart.
pub open spec fn key_form(style: PathStyle, s: Seq<char>) -> Seq<char> {
    match style {
        PathStyle::Unix => clean(style, s),
        PathStyle::Windows => lower_ascii(clean(style, s)),
    }
}

/// Whether the path names the same file whatever the working directory is.
pub open spec fn absolute(style: PathStyle, s: Seq<char>) -> bool {
    match style {
        PathStyle::Unix => rooted(style, s),
        PathStyle::Windows => prefix_len(style, s) > 0 && (has_slash(style, s) || !has_drive(style, s)),
    }
}

/// Whether two parts are the same; drive letters are the same in either case.
pub open spec fn same_part(style: PathStyle, a: Seq<char>, b: Seq<char>) -> bool {
    a == b || (is_drive_part(style, a) && is_drive_part(style, b) && lower_ascii(a) == lower_ascii(b))
}

/// Whether the path with parts `p` lies at or below the path with parts `root`.
pub open spec fn parts_under(style: PathStyle, p: Seq<Seq<char>>, root: Seq<Seq<char>>) -> bool {
    root.len() <= p.len() && forall|i: int| 0 <= i < root.len() ==> same_part(style, #[trigger] p[i], root[i])
}

/// Whether the path `s` lies at or below the path `root`.
pub open spec fn under(style: PathStyle, s: Seq<char>, root: Seq<char>) -> bool {
    parts_under(style, parts(style, s), parts(style, root))
}

/// What is left of the path `s` below the path `root`.
pub open spec fn below(style: PathStyle, s: Seq<char>, root: Seq<char>) -> Option<Seq<char>> {
    if under(style, s, root) {
        Some(render(style, parts(style, s).skip(parts(style, root).len() as int)))
    } else {
        None
    }
}

/// Whether two texts write the same path.
pub open spec fn same(style: PathStyle, a: Seq<char>, b: Seq<char>) -> bool {
    under(style, a, b) && parts(style, a).len() == parts(style, b).len()
}

/// Whether a part names something.
pub open spec fn is_name(style: PathStyle, part: Seq<char>) -> bool {
    !is_lead(style, part) && part != here() && part != up()
}

/// The parts of a verbatim path when one more part is seen from it: as nothing below such a prefix
/// is looked up, `.` and `..` are worked out at once.
pub open spec fn stepped(style: PathStyle, p: Seq<Seq<char>>, part: Seq<char>) -> Seq<Seq<char>> {
    if part == root_part(style) {
        p.take(1).push(part)
    } else if part == here() {
        p
    } else if part == up() {
        if p.len() > 0 && is_name(style, p.last()) {
            p.drop_last()
        } else {
            p
        }
    } else {
        p.push(part)
    }
}

/// The parts of a verbatim path when these parts are seen from it, one after the other.
pub open spec fn walked(style: PathStyle, p: Seq<Seq<char>>, list: Seq<Seq<char>>) -> Seq<Seq<char>>
    decreases list.len(),
{
    if list.len() == 0 {
        p
    } else {
        stepped(style, walked(style, p, list.drop_last()), list.last())
    }
}

/// How a verbatim path that was walked is written.
pub open spec fn walked_text(style: PathStyle, p: Seq<Seq<char>>) -> Seq<char> {
    if p.len() == 0 {
        Seq::empty()
    } else {
        p[0].skip(1) + (if p.len() > 1 {
            seq!['\\']
        } else {
            Seq::empty()
        }) + joined(p.skip(if p.len() > 1 && is_lead(style, p[1]) {
            2
        } else {
            1
        }), seq!['\\'])
    }
}

/// `name` as seen from the directory `dir`. A name with a prefix is seen from anywhere; a rooted
/// name keeps the prefix of `dir`.
pub open spec fn joined_path(style: PathStyle, dir: Seq<char>, name: Seq<char>) -> Seq<char> {
    if prefix_len(style, name) > 0 {
        name
    } else if verbatim(style, dir) && name.len() > 0 {
        walked_text(style, walked(style, parts(style, dir), parts(style, name)))
    } else if has_slash(style, name) {
        dir.take(prefix_len(style, dir)) + name
    } else if dir.len() == 0 || is_sep(style, dir.last()) || (has_drive(style, dir) && dir.len() == 2) {
        dir + name
    } else {
        dir + seq![main_sep(style)] + name
    }
}

/// `name` itself where it is absolute, else `name` as seen from `dir`.
pub open spec fn resolved(style: PathStyle, dir: Seq<char>, name: Seq<char>) -> Seq<char> {
    if absolute(style, name) {
        name
    } else {
        joined_path(style, dir, name)
    }
}

/// The last component, where it names something.
pub open spec fn name_of(style: PathStyle, s: Seq<char>) -> Option<Seq<char>> {
    let p = parts(style, s);
    if p.len() == 0 || !is_name(style, p.last()) {
        None
    } else {
        Some(p.last())
    }
}

/// Where the extension of a file name begins: the position of its last dot, 0 where it has none
/// or only a leading one.
pub open spec fn dot_at(name: Seq<char>) -> int {
    if crate::text::last_at(name, '.') <= 0 {
        0
    } else {
        crate::text::last_at(name, '.')
    }
}

/// The file name without its extension.
pub open spec fn stem_of(style: PathStyle, s: Seq<char>) -> Option<Seq<char>> {
    match name_of(style, s) {
        Some(name) => if dot_at(name) == 0 {
            Some(name)
        } else {
            Some(name.take(dot_at(name)))
        },
        None => None,
    }
}

/// The extension of the file name, without its dot.
pub open spec fn extension_of(style: PathStyle, s: Seq<char>) -> Option<Seq<char>> {
    match name_of(style, s) {
        Some(name) => if dot_at(name) == 0 {
            None
        } else {
            Some(name.skip(dot_at(name) + 1))
        },
        None => None,
    }
}

// ── Reading prefixes ────────────────────────────────────────────────────

/// What [`until`] finds.
proof fn lemma_until(s: Seq<char>, i: int, stop: spec_fn(char) -> bool)
    requires
        0 <= i <= s.len(),
    ensures
        i <= until(s, i, stop) <= s.len(),
        forall|j: int| i <= j < until(s, i, stop) ==> !stop(#[trigger] s[j]),
        until(s, i, stop) < s.len() ==> stop(s[until(s, i, stop)]),
    decreases s.len() - i,
{
    if i < s.len() && !stop(s[i]) {
        lemma_until(s, i + 1, stop);
    }
}

/// [`until`] is the only position with a stop there and none before.
proof fn lemma_until_is(s: Seq<char>, i: int, stop: spec_fn(char) -> bool, e: int)
    requires
        0 <= i <= e <= s.len(),
        forall|j: int| i <= j < e ==> !stop(#[trigger] s[j]),
        e == s.len() || stop(s[e]),
    ensures
        until(s, i, stop) == e,
    decreases s.len() - i,
{
    if i < e {
        assert(!stop(s[i]));
        lemma_until_is(s, i + 1, stop, e);
    }
}

/// What [`two_names`] finds.
pub(crate) proof fn lemma_two_names(s: Seq<char>, i: int, stop: spec_fn(char) -> bool)
    requires
        0 <= i <= s.len(),
    ensures
        i <= until(s, i, stop) <= two_names(s, i, stop) <= s.len(),
        two_names(s, i, stop) < s.len() ==> stop(s[two_names(s, i, stop)]),
{
    lemma_until(s, i, stop);
    let first = until(s, i, stop);
    if first < s.len() {
        lemma_until(s, first + 1, stop);
    }
}

/// A prefix lies within the path.
pub(crate) proof fn lemma_prefix_len(style: PathStyle, s: Seq<char>)
    ensures
        0 <= prefix_len(style, s) <= lead_len(style, s) <= s.len(),
        verbatim_share(style, s) ==> prefix_len(style, s) >= 8,
        verbatim(style, s) ==> prefix_len(style, s) >= 4,
{
    if verbatim(style, s) {
        if verbatim_share(style, s) {
            lemma_two_names(s, 8, stops(style, true));
        } else {
            lemma_until(s, 4, stops(style, true));
        }
    } else if two_seps(style, s) {
        lemma_until(s, 2, stops(style, false));
        lemma_two_names(s, 2, stops(style, false));
        if s.len() >= 4 {
            lemma_until(s, 4, stops(style, false));
        }
    }
}

/// A verbatim path has a prefix among its parts.
proof fn lemma_verbatim_prefix(style: PathStyle, s: Seq<char>)
    requires
        verbatim(style, s),
    ensures
        leads(style, s).len() > 0,
        is_prefix_part(style, leads(style, s)[0]),
{
    lemma_prefix_len(style, s);
}

// ── Laws of the shortest spelling ───────────────────────────────────────

/// A text without separators is one piece.
pub proof fn lemma_split_whole(b: Seq<char>, is_sep: spec_fn(char) -> bool)
    requires
        forall|i: int| 0 <= i < b.len() ==> !is_sep(#[trigger] b[i]),
    ensures
        split(b, is_sep) == seq![b],
    decreases b.len(),
{
    if b.len() > 0 {
        assert forall|i: int| 0 <= i < b.drop_last().len() implies !is_sep(#[trigger] b.drop_last()[i]) by {
            assert(b.drop_last()[i] == b[i]);
        }
        lemma_split_whole(b.drop_last(), is_sep);
        assert(b.drop_last().push(b.last()) =~= b);
        assert(split(b, is_sep) =~= seq![b]);
    } else {
        assert(b =~= Seq::<char>::empty());
    }
}

/// What follows the last separator is the last piece.
proof fn lemma_split_last(a: Seq<char>, c: char, b: Seq<char>, is_sep: spec_fn(char) -> bool)
    requires
        is_sep(c),
        forall|i: int| 0 <= i < b.len() ==> !is_sep(#[trigger] b[i]),
    ensures
        split(a + seq![c] + b, is_sep) == split(a, is_sep).push(b),
    decreases b.len(),
{
    let s = a + seq![c] + b;
    if b.len() == 0 {
        assert(s.drop_last() =~= a);
        assert(b =~= Seq::<char>::empty());
    } else {
        assert forall|i: int| 0 <= i < b.drop_last().len() implies !is_sep(#[trigger] b.drop_last()[i]) by {
            assert(b.drop_last()[i] == b[i]);
        }
        lemma_split_last(a, c, b.drop_last(), is_sep);
        assert(s.drop_last() =~= a + seq![c] + b.drop_last());
        assert(s.last() == b.last());
        assert(b.drop_last().push(b.last()) =~= b);
        assert(split(s, is_sep) =~= split(a, is_sep).push(b));
    }
}

/// Whether no part holds a separator.
spec fn plain(style: PathStyle, p: Seq<Seq<char>>) -> bool {
    forall|i: int, j: int|
        #![trigger p[i][j]]
        0 <= i < p.len() && 0 <= j < p[i].len() ==> !is_sep(style, p[i][j])
}

/// Splitting undoes joining.
pub(crate) proof fn lemma_split_joined(p: Seq<Seq<char>>, c: char, stop: spec_fn(char) -> bool)
    requires
        p.len() > 0,
        stop(c),
        forall|i: int, j: int|
            #![trigger p[i][j]]
            0 <= i < p.len() && 0 <= j < p[i].len() ==> !stop(p[i][j]),
    ensures
        split(joined(p, seq![c]), stop) == p,
    decreases p.len(),
{
    let b = p.last();
    assert forall|i: int| 0 <= i < b.len() implies !stop(#[trigger] b[i]) by {
        assert(!stop(p[p.len() - 1][i]));
    }
    if p.len() == 1 {
        lemma_split_whole(b, stop);
        assert(p =~= seq![b]);
    } else {
        let init = p.drop_last();
        assert forall|i: int, j: int|
            #![trigger init[i][j]]
            0 <= i < init.len() && 0 <= j < init[i].len() implies !stop(init[i][j]) by {
            assert(init[i][j] == p[i][j]);
        }
        lemma_split_joined(init, c, stop);
        lemma_split_last(joined(init, seq![c]), c, b, stop);
        assert(init.push(b) =~= p);
    }
}

/// Whether `p` could have come out of [`kept`].
spec fn tidy(p: Seq<Seq<char>>, rooted: bool) -> bool {
    forall|i: int| 0 <= i < p.len() ==> (#[trigger] p[i]).len() > 0 && (p[i] == here() ==> !rooted && i == 0)
}

/// What [`kept`] keeps.
proof fn lemma_kept(style: PathStyle, pieces: Seq<Seq<char>>, rooted: bool)
    requires
        plain(style, pieces),
    ensures
        plain(style, kept(pieces, rooted)),
        tidy(kept(pieces, rooted), rooted),
        kept(pieces, rooted).len() <= pieces.len(),
        !rooted && pieces.len() > 0 && pieces[0].len() > 0 ==> kept(pieces, rooted).len() > 0 && kept(pieces, rooted)[0]
            == pieces[0],
    decreases pieces.len(),
{
    if pieces.len() > 0 {
        let init = pieces.drop_last();
        let last = pieces.last();
        assert forall|i: int, j: int|
            #![trigger init[i][j]]
            0 <= i < init.len() && 0 <= j < init[i].len() implies !is_sep(style, init[i][j]) by {
            assert(init[i][j] == pieces[i][j]);
        }
        lemma_kept(style, init, rooted);
        let out = kept(pieces, rooted);
        assert forall|i: int, j: int|
            #![trigger out[i][j]]
            0 <= i < out.len() && 0 <= j < out[i].len() implies !is_sep(style, out[i][j]) by {
            if i == kept(init, rooted).len() {
                assert(out[i][j] == pieces[pieces.len() - 1][j]);
            } else {
                assert(out[i][j] == kept(init, rooted)[i][j]);
            }
        }
    }
}

/// [`kept`] keeps all of a tidy list.
proof fn lemma_kept_all(p: Seq<Seq<char>>, rooted: bool)
    requires
        tidy(p, rooted),
    ensures
        kept(p, rooted) == p,
    decreases p.len(),
{
    if p.len() > 0 {
        let init = p.drop_last();
        assert(tidy(init, rooted)) by {
            assert forall|i: int| 0 <= i < init.len() implies (#[trigger] init[i]).len() > 0 && (init[i] == here() ==> !rooted
                && i == 0) by {
                assert(init[i] == p[i]);
            }
        }
        lemma_kept_all(init, rooted);
        assert(p.last() == p[p.len() - 1]);
        assert(init.push(p.last()) =~= p);
    } else {
        assert(kept(p, rooted) =~= p);
    }
}

/// The first characters of a joined list are those of its first part.
proof fn lemma_joined_head(p: Seq<Seq<char>>)
    requires
        p.len() > 0,
    ensures
        p[0].is_prefix_of(joined(p, seq!['/'])),
        p.len() == 1 ==> joined(p, seq!['/']) == p[0],
        p.len() > 1 ==> joined(p, seq!['/']).len() > p[0].len() && joined(p, seq!['/'])[p[0].len() as int] == '/',
    decreases p.len(),
{
    if p.len() > 1 {
        lemma_joined_head(p.drop_last());
        assert(p.drop_last()[0] == p[0]);
        let head = joined(p.drop_last(), seq!['/']);
        let whole = joined(p, seq!['/']);
        assert(whole =~= head + seq!['/'] + p.last());
        assert(whole.take(p[0].len() as int) =~= head.take(p[0].len() as int));
        if p.len() == 2 {
            assert(whole[p[0].len() as int] == '/');
        } else {
            assert(whole[p[0].len() as int] == head[p[0].len() as int]);
        }
    }
}

/// What the prefix and the root of a path come to, unless it is verbatim.
proof fn lemma_leads(style: PathStyle, s: Seq<char>)
    requires
        !verbatim(style, s),
    ensures
        ({
            let l = leads(style, s);
            let t = leads_text(style, l, l.len() as int);
            let k = prefix_len(style, s);
            &&& forall|i: int| 0 <= i < l.len() ==> is_lead(style, #[trigger] l[i]) && !is_verbatim_part(style, l[i])
            &&& t.len() == (if rooted(style, s) {
                k + 1
            } else {
                k
            })
            &&& forall|i: int| 0 <= i < k ==> #[trigger] t[i] == slash(style, s[i])
            &&& rooted(style, s) ==> t[k] == '/'
        }),
{
    lemma_prefix_len(style, s);
    let l = leads(style, s);
    let k = prefix_len(style, s);
    if k > 0 {
        let text = prefix_text(style, s);
        assert(l[0] =~= root_part(style) + text);
        assert(l[0].skip(1) =~= text);
        assert(is_prefix_part(style, l[0]));
        assert(text[0] != '\\') by {
            assert(text[0] == slash(style, s[0]));
        }
        if rooted(style, s) {
            assert(l[1] == root_part(style));
            assert(leads_text(style, l, 2) =~= text + seq!['/']);
        }
    } else if rooted(style, s) {
        assert(l[0] == root_part(style));
    }
}

/// What the prefix and the root of a path are.
proof fn lemma_lead_count(style: PathStyle, s: Seq<char>)
    ensures
        leads(style, s).len() <= 2,
        forall|i: int| 0 <= i < leads(style, s).len() ==> is_lead(style, #[trigger] leads(style, s)[i]),
        forall|i: int| 0 <= i < names(style, s).len() ==> !is_lead(style, #[trigger] names(style, s)[i]) && names(style, s)[i].len() > 0,
        lead_count(style, parts(style, s)) == leads(style, s).len(),
        parts(style, s).skip(leads(style, s).len() as int) == names(style, s),
{
    let v = verbatim(style, s);
    let rest = s.skip(lead_len(style, s));
    let pieces = split(rest, stops(style, v));
    lemma_split_pieces(rest, stops(style, v));
    if v {
        lemma_filled(style, pieces);
    } else {
        lemma_pieces_plain(style, rest);
        lemma_kept(style, pieces, rooted(style, s));
        lemma_plain_is_no_lead(style, names(style, s));
    }
    let list = names(style, s);
    let l = leads(style, s);
    let p = parts(style, s);
    if list.len() > 0 {
        assert(p[l.len() as int] == list[0]);
        assert(!is_lead(style, list[0]));
    }
    if l.len() > 0 {
        assert(p[0] == l[0]);
        assert(is_lead(style, l[0]));
    }
    if l.len() > 1 {
        assert(p[1] == l[1]);
        assert(is_lead(style, l[1]));
    }
    assert(p.skip(l.len() as int) =~= list);
}

/// The pieces that are not empty are components of a verbatim path.
proof fn lemma_filled(style: PathStyle, pieces: Seq<Seq<char>>)
    requires
        style == PathStyle::Windows,
        forall|i: int, j: int|
            #![trigger pieces[i][j]]
            0 <= i < pieces.len() && 0 <= j < pieces[i].len() ==> !stops(style, true)(pieces[i][j]),
    ensures
        forall|i: int|
            0 <= i < filled(pieces).len() ==> !is_lead(style, #[trigger] filled(pieces)[i]) && filled(pieces)[i].len() > 0
                && unslashed(filled(pieces)[i]),
    decreases pieces.len(),
{
    if pieces.len() > 0 {
        let init = pieces.drop_last();
        let n = pieces.len() - 1;
        assert forall|i: int, j: int|
            #![trigger init[i][j]]
            0 <= i < init.len() && 0 <= j < init[i].len() implies !stops(style, true)(init[i][j]) by {
            assert(init[i][j] == pieces[i][j]);
        }
        lemma_filled(style, init);
        assert(unslashed(pieces[n])) by {
            assert forall|j: int| 0 <= j < pieces[n].len() implies #[trigger] pieces[n][j] != '\\' by {
                assert(!stops(style, true)(pieces[n][j]));
            }
        }
        let out = filled(pieces);
        assert forall|i: int| 0 <= i < out.len() implies !is_lead(style, #[trigger] out[i]) && out[i].len() > 0 && unslashed(
            out[i],
        ) by {
            if i < filled(init).len() {
                assert(out[i] == filled(init)[i]);
            } else {
                assert(out[i] == pieces[n]);
                assert(pieces[n][0] != '\\');
            }
        }
    }
}

/// Whether a text holds no backslash.
spec fn unslashed(s: Seq<char>) -> bool {
    forall|j: int| 0 <= j < s.len() ==> #[trigger] s[j] != '\\'
}

/// The pieces between separators hold none.
proof fn lemma_pieces_plain(style: PathStyle, s: Seq<char>)
    ensures
        plain(style, split(s, stops(style, false))),
{
    let pieces = split(s, stops(style, false));
    lemma_split_pieces(s, stops(style, false));
    assert forall|i: int, j: int|
        #![trigger pieces[i][j]]
        0 <= i < pieces.len() && 0 <= j < pieces[i].len() implies !is_sep(style, pieces[i][j]) by {
        assert(!stops(style, false)(pieces[i][j]));
    }
}

/// What the components of a path come to, and how its shortest spelling is made of them, unless it
/// is verbatim.
proof fn lemma_components(style: PathStyle, s: Seq<char>)
    requires
        !verbatim(style, s),
    ensures
        plain(style, names(style, s)),
        tidy(names(style, s), rooted(style, s)),
        clean(style, s) == leads_text(style, leads(style, s), leads(style, s).len() as int) + joined(
            names(style, s),
            seq!['/'],
        ),
{
    let rest = s.skip(lead_len(style, s));
    lemma_pieces_plain(style, rest);
    lemma_kept(style, split(rest, stops(style, false)), rooted(style, s));
    lemma_lead_count(style, s);
    lemma_leads(style, s);
    let l = leads(style, s);
    let p = parts(style, s);
    let list = names(style, s);
    if p.len() > 0 {
        if l.len() > 0 {
            assert(p[0] == l[0]);
            assert(!is_verbatim_part(style, l[0]));
        } else {
            assert(p[0] == list[0]);
            assert(!is_lead(style, list[0]));
        }
    }
    if l.len() > 0 {
        assert(p[0] == l[0]);
    }
    if l.len() > 1 {
        assert(p[1] == l[1]);
    }
    assert(leads_text(style, p, l.len() as int) == leads_text(style, l, l.len() as int));
}

/// Plain parts are neither prefixes nor roots.
proof fn lemma_plain_is_no_lead(style: PathStyle, p: Seq<Seq<char>>)
    requires
        plain(style, p),
    ensures
        forall|i: int| 0 <= i < p.len() ==> !is_lead(style, #[trigger] p[i]),
{
    assert forall|i: int| 0 <= i < p.len() implies !is_lead(style, #[trigger] p[i]) by {
        if p[i].len() > 0 {
            assert(!is_sep(style, p[i][0]));
        }
    }
}

/// Reading the components again gives them back.
proof fn lemma_names_again(style: PathStyle, list: Seq<Seq<char>>, rooted: bool)
    requires
        plain(style, list),
        tidy(list, rooted),
    ensures
        kept(split(joined(list, seq!['/']), stops(style, false)), rooted) == list,
        list.len() > 0 ==> joined(list, seq!['/']).len() > 0 && !is_sep(style, joined(list, seq!['/'])[0]),
        list.len() == 0 ==> joined(list, seq!['/']).len() == 0,
{
    let text = joined(list, seq!['/']);
    if list.len() > 0 {
        assert forall|i: int, j: int|
            #![trigger list[i][j]]
            0 <= i < list.len() && 0 <= j < list[i].len() implies !stops(style, false)(list[i][j]) by {
            assert(!is_sep(style, list[i][j]));
        }
        lemma_split_joined(list, '/', stops(style, false));
        lemma_kept_all(list, rooted);
        lemma_joined_head(list);
        assert(list[0].len() > 0);
        assert(text[0] == list[0][0]) by {
            assert(text.take(list[0].len() as int)[0] == text[0]);
        }
        assert(!is_sep(style, list[0][0]));
    } else {
        assert(text =~= Seq::<char>::empty());
        lemma_kept_nothing(stops(style, false), rooted);
        assert(list =~= Seq::<Seq<char>>::empty());
    }
}

/// Nothing splits into nothing.
proof fn lemma_kept_nothing(stop: spec_fn(char) -> bool, rooted: bool)
    ensures
        kept(split(Seq::<char>::empty(), stop), rooted) == Seq::<Seq<char>>::empty(),
{
    reveal_with_fuel(kept, 2);
    let one = seq![Seq::<char>::empty()];
    assert(split(Seq::<char>::empty(), stop) =~= one);
    assert(one.drop_last() =~= Seq::<Seq<char>>::empty());
}

/// The prefix and the root are read again as they were.
proof fn lemma_leads_again(style: PathStyle, s: Seq<char>, tail: Seq<char>)
    requires
        !verbatim(style, s),
        leads(style, s).len() > 0,
        tail.len() > 0 ==> !is_sep(style, tail[0]),
    ensures
        ({
            let t = leads_text(style, leads(style, s), leads(style, s).len() as int) + tail;
            &&& !verbatim(style, t)
            &&& prefix_len(style, t) == prefix_len(style, s)
            &&& rooted(style, t) == rooted(style, s)
            &&& has_slash(style, t) == rooted(style, s)
            &&& has_drive(style, t) == has_drive(style, s)
            &&& leads(style, t) == leads(style, s)
            &&& t.skip(lead_len(style, t)) == tail
        }),
{
    lemma_leads(style, s);
    lemma_prefix_len(style, s);
    let l = leads(style, s);
    let front = leads_text(style, l, l.len() as int);
    let t = front + tail;
    let k = prefix_len(style, s);
    let stop = stops(style, false);
    assert(forall|i: int| 0 <= i < front.len() ==> t[i] == front[i]);
    if tail.len() > 0 {
        assert(t[front.len() as int] == tail[0]);
    }
    assert forall|i: int| 0 <= i < k implies #[trigger] t[i] == slash(style, s[i]) by {
        assert(t[i] == front[i]);
    }
    if rooted(style, s) {
        assert(t[k] == '/');
    }
    if style == PathStyle::Windows {
        if two_seps(style, s) && k > 0 {
            assert(t[0] == '/' && t[1] == '/') by {
                lemma_until(s, 2, stop);
                lemma_two_names(s, 2, stop);
                if s.len() >= 4 {
                    lemma_until(s, 4, stop);
                }
                assert(t[0] == slash(style, s[0]) && t[1] == slash(style, s[1]));
            }
            assert(rooted(style, s));
            if s.len() >= 4 && s[2] == '.' && is_sep(style, s[3]) {
                lemma_until(s, 4, stop);
                assert(t[2] == slash(style, s[2]) && t[3] == slash(style, s[3]));
                assert forall|j: int| 4 <= j < k implies !stop(#[trigger] t[j]) by {
                    assert(!stop(s[j]));
                }
                lemma_until_is(t, 4, stop, k);
            } else {
                let e = until(s, 2, stop);
                lemma_until(s, 2, stop);
                lemma_until(s, e + 1, stop);
                assert(k == until(s, e + 1, stop));
                assert forall|j: int| 2 <= j < e implies !stop(#[trigger] t[j]) by {
                    assert(!stop(s[j]));
                }
                assert(t[e] == slash(style, s[e]));
                lemma_until_is(t, 2, stop, e);
                assert forall|j: int| e + 1 <= j < k implies !stop(#[trigger] t[j]) by {
                    assert(!stop(s[j]));
                }
                lemma_until_is(t, e + 1, stop, k);
                assert(t[2] == slash(style, s[2]) && t[3] == slash(style, s[3]));
            }
        } else if has_drive(style, s) {
            assert(t[0] == slash(style, s[0]) && t[1] == slash(style, s[1]));
        }
    }
    assert(prefix_len(style, t) == k);
    assert(has_slash(style, t) == rooted(style, s));
    assert(prefix_text(style, t) =~= prefix_text(style, s)) by {
        assert forall|i: int| 0 <= i < k implies slash(style, #[trigger] t[i]) == slash(style, s[i]) by {
            assert(t[i] == slash(style, s[i]));
        }
    }
    assert(leads(style, t) =~= l);
    assert(t.skip(lead_len(style, t)) =~= tail);
}

/// The shortest spelling of a path without prefix and root has neither.
proof fn lemma_no_leads_again(style: PathStyle, s: Seq<char>)
    requires
        leads(style, s).len() == 0,
    ensures
        ({
            let t = joined(names(style, s), seq!['/']);
            &&& !verbatim(style, t)
            &&& prefix_len(style, t) == 0
            &&& !rooted(style, t)
            &&& !has_slash(style, t)
        }),
        s.len() > 0 ==> names(style, s).len() > 0,
{
    lemma_prefix_len(style, s);
    if verbatim(style, s) {
        lemma_verbatim_prefix(style, s);
    }
    let pieces = split(s, stops(style, false));
    let list = names(style, s);
    let text = joined(list, seq!['/']);
    assert(s.skip(0) =~= s);
    lemma_components(style, s);
    lemma_names_again(style, list, false);
    lemma_pieces_plain(style, s);
    lemma_kept(style, pieces, false);
    lemma_first_piece(s, stops(style, false));
    if s.len() > 0 {
        assert(!stops(style, false)(s[0]));
        assert(list[0] == pieces[0]);
        lemma_joined_head(list);
        let first = list[0];
        let n = first.len() as int;
        assert(s.take(n) == first);
        assert(text.take(n) == first);
        assert(s.take(n)[0] == s[0]);
        assert(text.take(n)[0] == text[0]);
        if n > 1 {
            assert(s.take(n)[1] == s[1]);
            assert(text.take(n)[1] == text[1]);
            assert(!is_sep(style, first[1]));
        } else if list.len() > 1 {
            assert(text[1] == '/');
        }
    } else {
        assert(s =~= Seq::<char>::empty());
        lemma_kept_nothing(stops(style, false), false);
    }
}

/// The first piece is what stands before the first separator.
proof fn lemma_first_piece(s: Seq<char>, is_sep: spec_fn(char) -> bool)
    ensures
        split(s, is_sep).len() > 0,
        split(s, is_sep)[0].is_prefix_of(s),
        split(s, is_sep).len() == 1 ==> split(s, is_sep)[0] == s,
        split(s, is_sep).len() > 1 ==> split(s, is_sep)[0].len() < s.len() && is_sep(s[split(s, is_sep)[0].len() as int]),
        s.len() > 0 && !is_sep(s[0]) ==> split(s, is_sep)[0].len() > 0,
    decreases s.len(),
{
    if s.len() > 0 {
        let init = s.drop_last();
        lemma_first_piece(init, is_sep);
        let before = split(init, is_sep);
        if is_sep(s.last()) {
            assert(split(s, is_sep)[0] == before[0]);
            assert(s.take(before[0].len() as int) =~= init.take(before[0].len() as int));
        } else if before.len() == 1 {
            assert(split(s, is_sep)[0] =~= s);
        } else {
            assert(split(s, is_sep)[0] == before[0]);
            assert(s.take(before[0].len() as int) =~= init.take(before[0].len() as int));
            assert(s[before[0].len() as int] == init[before[0].len() as int]);
        }
    } else {
        assert(split(s, is_sep)[0] =~= s);
    }
}

/// The shortest spelling of a path has the parts of the path.
pub proof fn lemma_clean_keeps_parts(style: PathStyle, s: Seq<char>)
    ensures
        parts(style, clean(style, s)) == parts(style, s),
        absolute(style, clean(style, s)) == absolute(style, s),
        verbatim(style, clean(style, s)) == verbatim(style, s),
        prefix_len(style, clean(style, s)) == prefix_len(style, s),
{
    if !verbatim(style, s) {
        lemma_components(style, s);
        lemma_prefix_len(style, s);
        let list = names(style, s);
        let tail = joined(list, seq!['/']);
        lemma_names_again(style, list, rooted(style, s));
        if leads(style, s).len() > 0 {
            lemma_leads_again(style, s, tail);
        } else {
            lemma_no_leads_again(style, s);
            assert(clean(style, s) =~= tail);
            assert(tail.skip(0) =~= tail);
            assert(leads(style, tail) =~= leads(style, s));
        }
    }
}

/// Spelling a path in its shortest form twice is the same as once.
pub proof fn lemma_clean_idempotent(style: PathStyle, s: Seq<char>)
    ensures
        clean(style, clean(style, s)) == clean(style, s),
{
    lemma_clean_keeps_parts(style, s);
}

/// Splitting at a separator splits either side.
proof fn lemma_split_concat(a: Seq<char>, c: char, b: Seq<char>, is_sep: spec_fn(char) -> bool)
    requires
        is_sep(c),
    ensures
        split(a + seq![c] + b, is_sep) == split(a, is_sep) + split(b, is_sep),
    decreases b.len(),
{
    let s = a + seq![c] + b;
    if b.len() == 0 {
        assert(s.drop_last() =~= a);
        assert(split(a, is_sep).push(Seq::<char>::empty()) =~= split(a, is_sep) + split(b, is_sep));
    } else {
        lemma_split_concat(a, c, b.drop_last(), is_sep);
        lemma_split_nonempty(b.drop_last(), is_sep);
        assert(s.drop_last() =~= a + seq![c] + b.drop_last());
        assert(s.last() == b.last());
        assert(split(s, is_sep) =~= split(a, is_sep) + split(b, is_sep));
    }
}

/// Below a root, components are kept on either side alike.
proof fn lemma_kept_concat(a: Seq<Seq<char>>, b: Seq<Seq<char>>)
    ensures
        kept(a + b, true) == kept(a, true) + kept(b, true),
    decreases b.len(),
{
    if b.len() == 0 {
        assert(a + b =~= a);
        assert(kept(a, true) + kept(b, true) =~= kept(a, true));
    } else {
        lemma_kept_concat(a, b.drop_last());
        assert((a + b).drop_last() =~= a + b.drop_last());
        assert((a + b).last() == b.last());
        assert(kept(a + b, true) =~= kept(a, true) + kept(b, true));
    }
}

/// In a path without a root, only what leads it can be `.`.
proof fn lemma_kept_concat_relative(a: Seq<Seq<char>>, b: Seq<Seq<char>>)
    requires
        a.len() > 0,
    ensures
        kept(a + b, false) == kept(a, false) + kept(b, true),
    decreases b.len(),
{
    if b.len() == 0 {
        assert(a + b =~= a);
        assert(kept(a, false) + kept(b, true) =~= kept(a, false));
    } else {
        lemma_kept_concat_relative(a, b.drop_last());
        assert((a + b).drop_last() =~= a + b.drop_last());
        assert((a + b).last() == b.last());
        assert(kept(a + b, false) =~= kept(a, false) + kept(b, true));
    }
}

/// The components of a text that more is appended to.
proof fn lemma_kept_appended(style: PathStyle, rest: Seq<char>, c: char, name: Seq<char>, rooted: bool)
    requires
        is_sep(style, c),
    ensures
        ({
            let stop = stops(style, false);
            &&& kept(split(rest + seq![c] + name, stop), rooted) == kept(split(rest, stop), rooted) + kept(split(name, stop), true)
            &&& kept(split(rest + seq![c], stop), rooted) == kept(split(rest, stop), rooted)
        }),
{
    let stop = stops(style, false);
    lemma_split_concat(rest, c, name, stop);
    lemma_split_concat(rest, c, Seq::empty(), stop);
    lemma_split_nonempty(rest, stop);
    lemma_kept_nothing(stop, true);
    assert(rest + seq![c] + Seq::<char>::empty() =~= rest + seq![c]);
    let none = split(Seq::<char>::empty(), stop);
    if rooted {
        lemma_kept_concat(split(rest, stop), split(name, stop));
        lemma_kept_concat(split(rest, stop), none);
    } else {
        lemma_kept_concat_relative(split(rest, stop), split(name, stop));
        lemma_kept_concat_relative(split(rest, stop), none);
    }
    assert(kept(split(rest, stop), rooted) + kept(none, true) =~= kept(split(rest, stop), rooted));
}

/// A name seen from a directory has the parts of the directory, then its own, where it does not
/// make the prefix of the directory another one.
pub proof fn lemma_join_parts(style: PathStyle, dir: Seq<char>, name: Seq<char>)
    requires
        !verbatim(style, dir),
        rooted(style, dir) || dir.len() > prefix_len(style, dir),
        prefix_len(style, name) == 0,
        !has_slash(style, name),
        prefix_len(style, joined_path(style, dir, name)) == prefix_len(style, dir),
    ensures
        parts(style, joined_path(style, dir, name)) == parts(style, dir) + kept(split(name, stops(style, false)), true),
{
    let t = joined_path(style, dir, name);
    let list = kept(split(name, stops(style, false)), true);
    lemma_prefix_len(style, dir);
    lemma_join_keeps_prefix(style, dir, name);
    if dir.len() == prefix_len(style, dir) {
        lemma_join_prefix(style, dir, name);
    } else {
        lemma_join_appends(style, dir, name);
    }
    assert(parts(style, t) =~= parts(style, dir) + list);
}

/// Components seen from a directory come after those of the directory, where they do not make its
/// prefix another one.
proof fn lemma_join_names(style: PathStyle, dir: Seq<char>, list: Seq<Seq<char>>)
    requires
        dir.len() > 0,
        !verbatim(style, dir),
        plain(style, list),
        tidy(list, rooted(style, dir) || names(style, dir).len() > 0),
        prefix_len(style, joined(list, seq!['/'])) == 0,
        prefix_len(style, joined_path(style, dir, joined(list, seq!['/']))) == prefix_len(style, dir),
    ensures
        !verbatim(style, joined_path(style, dir, joined(list, seq!['/']))),
        parts(style, joined_path(style, dir, joined(list, seq!['/']))) == parts(style, dir) + list,
{
    let name = joined(list, seq!['/']);
    let r = rooted(style, dir);
    lemma_prefix_len(style, dir);
    lemma_names_again(style, list, r || names(style, dir).len() > 0);
    assert(!has_slash(style, name));
    lemma_join_keeps_prefix(style, dir, name);
    if dir.len() == prefix_len(style, dir) {
        lemma_join_prefix(style, dir, name);
        if r {
            lemma_names_again(style, list, true);
        }
        assert(parts(style, joined_path(style, dir, name)) =~= parts(style, dir) + list);
    } else {
        let p = joined_path(style, dir, name);
        lemma_join_appends(style, dir, name);
        if r || names(style, dir).len() > 0 {
            assert(kept(split(name, stops(style, false)), true) == list);
        }
        assert(leads(style, p) + (names(style, dir) + list) =~= parts(style, dir) + list);
    }
}

/// How a directory and a name without a prefix and a root go together.
spec fn appended(style: PathStyle, dir: Seq<char>, name: Seq<char>) -> Seq<char> {
    if is_sep(style, dir.last()) || (has_drive(style, dir) && dir.len() == 2) {
        dir + name
    } else {
        dir + seq![main_sep(style)] + name
    }
}

/// A name seen from a directory keeps what the directory begins with.
proof fn lemma_join_keeps_prefix(style: PathStyle, dir: Seq<char>, name: Seq<char>)
    requires
        dir.len() > 0,
        !verbatim(style, dir),
        prefix_len(style, name) == 0,
        !has_slash(style, name),
        prefix_len(style, joined_path(style, dir, name)) == prefix_len(style, dir),
    ensures
        ({
            let s = joined_path(style, dir, name);
            &&& s == appended(style, dir, name)
            &&& !verbatim(style, s)
            &&& has_drive(style, s) == has_drive(style, dir)
            &&& prefix_text(style, s) == prefix_text(style, dir)
        }),
{
    let s = joined_path(style, dir, name);
    let k = prefix_len(style, dir);
    assert(s =~= appended(style, dir, name));
    lemma_prefix_len(style, dir);
    assert(forall|i: int| 0 <= i < dir.len() ==> s[i] == dir[i]);
    if verbatim(style, s) {
        lemma_verbatim_prefix(style, s);
        assert(dir.len() >= 4);
        assert(s[0] == dir[0] && s[1] == dir[1] && s[2] == dir[2] && s[3] == dir[3]);
    }
    if dir.len() == 1 {
        assert(s[0] == dir[0]);
        if !is_sep(style, dir[0]) {
            assert(s[1] == main_sep(style));
        }
    } else {
        assert(s[0] == dir[0] && s[1] == dir[1]);
    }
    assert(prefix_text(style, s) =~= prefix_text(style, dir)) by {
        assert forall|i: int| 0 <= i < k implies slash(style, #[trigger] s[i]) == slash(style, dir[i]) by {
            assert(s[i] == dir[i]);
        }
    }
}

/// A name seen from a directory that is a prefix alone.
proof fn lemma_join_prefix(style: PathStyle, dir: Seq<char>, name: Seq<char>)
    requires
        dir.len() > 0,
        dir.len() == prefix_len(style, dir),
        !verbatim(style, dir),
        !verbatim(style, appended(style, dir, name)),
        !has_slash(style, name),
        prefix_len(style, name) == 0,
        has_drive(style, appended(style, dir, name)) == has_drive(style, dir),
        prefix_text(style, appended(style, dir, name)) == prefix_text(style, dir),
        prefix_len(style, appended(style, dir, name)) == prefix_len(style, dir),
    ensures
        names(style, dir).len() == 0,
        leads(style, appended(style, dir, name)) == leads(style, dir),
        names(style, appended(style, dir, name)) == kept(split(name, stops(style, false)), rooted(style, dir)),
{
    let s = appended(style, dir, name);
    let k = prefix_len(style, dir);
    let stop = stops(style, false);
    lemma_kept_nothing(stop, rooted(style, dir));
    assert(dir.skip(k) =~= Seq::<char>::empty());
    if has_drive(style, dir) {
        assert(s.skip(2) =~= name);
        if name.len() > 0 {
            assert(s[2] == name[0]);
        }
    } else if is_sep(style, dir.last()) {
        assert(name.len() > 0 ==> !is_sep(style, name[0]));
        lemma_bare_device(style, dir, name);
        assert(s =~= dir);
        assert(name =~= Seq::<char>::empty());
    } else {
        assert(s[k] == main_sep(style));
        assert(s.skip(k + 1) =~= name);
    }
    assert(leads(style, s) =~= leads(style, dir));
}

/// A name seen from a directory that is more than a prefix.
proof fn lemma_join_appends(style: PathStyle, dir: Seq<char>, name: Seq<char>)
    requires
        dir.len() > prefix_len(style, dir),
        !verbatim(style, dir),
        !verbatim(style, appended(style, dir, name)),
        has_drive(style, appended(style, dir, name)) == has_drive(style, dir),
        prefix_text(style, appended(style, dir, name)) == prefix_text(style, dir),
        prefix_len(style, appended(style, dir, name)) == prefix_len(style, dir),
    ensures
        rooted(style, dir) || names(style, dir).len() > 0,
        leads(style, appended(style, dir, name)) == leads(style, dir),
        names(style, appended(style, dir, name)) == names(style, dir) + kept(split(name, stops(style, false)), true),
{
    let s = appended(style, dir, name);
    let k = prefix_len(style, dir);
    let stop = stops(style, false);
    let r = rooted(style, dir);
    let n = lead_len(style, dir);
    lemma_prefix_len(style, dir);
    assert(s[k] == dir[k]);
    assert(leads(style, s) =~= leads(style, dir));
    assert(lead_len(style, s) == n);
    if !r {
        lemma_relative_names(style, dir);
    }
    let rest = dir.skip(n);
    if !is_sep(style, dir.last()) {
        if dir.len() == n {
            assert(dir.last() == dir[k]);
        }
        assert(s.skip(n) =~= rest + seq![main_sep(style)] + name);
        lemma_kept_appended(style, rest, main_sep(style), name, r);
    } else if dir.len() == n {
        assert(rest =~= Seq::<char>::empty());
        assert(s.skip(n) =~= name);
        lemma_kept_nothing(stop, r);
        assert(names(style, dir) + kept(split(name, stop), true) =~= kept(split(name, stop), true));
    } else {
        let d = rest.drop_last();
        assert(rest.last() == dir.last());
        assert(rest =~= d + seq![dir.last()]);
        assert(s.skip(n) =~= d + seq![dir.last()] + name);
        lemma_kept_appended(style, d, dir.last(), name, r);
    }
}

/// A path without a root that is more than its prefix has components.
proof fn lemma_relative_names(style: PathStyle, s: Seq<char>)
    requires
        !verbatim(style, s),
        !rooted(style, s),
        s.len() > prefix_len(style, s),
    ensures
        names(style, s).len() > 0,
{
    lemma_prefix_len(style, s);
    let k = prefix_len(style, s);
    let rest = s.skip(k);
    let stop = stops(style, false);
    lemma_pieces_plain(style, rest);
    lemma_kept(style, split(rest, stop), false);
    lemma_first_piece(rest, stop);
    assert(rest[0] == s[k]);
    assert(!stop(rest[0]));
}

/// What is seen from a device without a name makes its name.
proof fn lemma_bare_device(style: PathStyle, dir: Seq<char>, name: Seq<char>)
    requires
        !verbatim(style, dir),
        dir.len() > 0,
        dir.len() == prefix_len(style, dir),
        !has_drive(style, dir),
        is_sep(style, dir.last()),
        name.len() > 0 ==> !is_sep(style, name[0]),
        prefix_len(style, dir + name) == prefix_len(style, dir),
        !verbatim(style, dir + name),
    ensures
        name.len() == 0,
{
    let stop = stops(style, false);
    let s = dir + name;
    lemma_prefix_len(style, dir);
    lemma_until(dir, 2, stop);
    lemma_two_names(dir, 2, stop);
    if dir.len() >= 4 && dir[2] == '.' && is_sep(style, dir[3]) {
        lemma_until(dir, 4, stop);
        assert(dir.len() == 4) by {
            if dir.len() > 4 {
                assert(!stop(dir[dir.len() - 1]));
            }
        }
        assert(s[0] == dir[0] && s[1] == dir[1] && s[2] == dir[2] && s[3] == dir[3]);
        lemma_until(s, 4, stop);
        if name.len() > 0 {
            assert(s[4] == name[0]);
            assert(!stop(s[4]));
        }
    } else {
        let e = until(dir, 2, stop);
        lemma_until(dir, e + 1, stop);
        assert(!stop(dir[dir.len() - 1]));
    }
}

/// A root seen from a drive is the root of the drive.
proof fn lemma_join_root(style: PathStyle, dir: Seq<char>, list: Seq<Seq<char>>)
    requires
        has_drive(style, dir),
        dir.len() == 2,
        plain(style, list),
        tidy(list, true),
    ensures
        ({
            let name = seq!['/'] + joined(list, seq!['/']);
            &&& parts(style, joined_path(style, dir, name)) == parts(style, dir) + seq![root_part(style)] + list
            &&& !verbatim(style, joined_path(style, dir, name))
        }),
{
    let tail = joined(list, seq!['/']);
    let name = seq!['/'] + tail;
    lemma_names_again(style, list, true);
    assert(name[0] == '/');
    if tail.len() > 0 {
        assert(name[1] == tail[0]);
    }
    assert(prefix_len(style, name) == 0);
    assert(has_slash(style, name));
    let s = joined_path(style, dir, name);
    assert(dir.take(2) =~= dir);
    assert(s =~= dir + name);
    assert(s[0] == dir[0] && s[1] == dir[1] && s[2] == '/');
    assert(prefix_len(style, s) == 2);
    assert(prefix_len(style, dir) == 2);
    assert(s.skip(3) =~= tail);
    assert(dir.skip(2) =~= Seq::<char>::empty());
    lemma_kept_nothing(stops(style, false), false);
    assert(prefix_text(style, s) =~= prefix_text(style, dir));
    assert(parts(style, s) =~= parts(style, dir) + seq![root_part(style)] + list);
}

/// The parts of paths that are not verbatim and lie one under the other.
proof fn lemma_under_leads(style: PathStyle, s: Seq<char>, root: Seq<char>)
    requires
        !verbatim(style, s),
        !verbatim(style, root),
        under(style, s, root),
        root.len() > 0,
    ensures
        parts(style, root).len() > 0,
        leads(style, root).len() == leads(style, s).len() || (leads(style, root).len() == 1 && leads(style, s).len() == 2
            && parts(style, root).len() == 1 && has_drive(style, root) && root.len() == 2),
        rooted(style, root) ==> rooted(style, s),
        leads(style, root).len() == leads(style, s).len() ==> rooted(style, root) == rooted(style, s),
{
    let p = parts(style, s);
    let r = parts(style, root);
    let l = leads(style, root);
    let m = leads(style, s);
    lemma_lead_count(style, s);
    lemma_lead_count(style, root);
    lemma_prefix_len(style, s);
    lemma_prefix_len(style, root);
    if l.len() == 0 {
        lemma_no_leads_again(style, root);
        assert(r[0] == names(style, root)[0]);
        assert(!is_lead(style, r[0]));
        assert(same_part(style, p[0], r[0]));
        if m.len() > 0 {
            assert(p[0] == m[0]);
        }
    } else {
        assert(r[0] == l[0]);
        assert(same_part(style, p[0], r[0]));
        if m.len() == 0 {
            assert(p[0] == names(style, s)[0]);
        } else {
            assert(p[0] == m[0]);
        }
        assert(m.len() > 0);
        assert((prefix_len(style, root) > 0) == is_prefix_part(style, l[0]));
        assert((prefix_len(style, s) > 0) == is_prefix_part(style, m[0]));
        if l.len() == 2 {
            assert(r[1] == l[1]);
            assert(same_part(style, p[1], r[1]));
            if m.len() == 1 {
                assert(p[1] == names(style, s)[0]);
                assert(!is_lead(style, p[1]));
            }
        } else if m.len() == 2 {
            assert(prefix_len(style, root) > 0);
            assert(!rooted(style, root));
            assert(has_drive(style, root));
            if root.len() > 2 {
                lemma_relative_names(style, root);
                assert(r[1] == names(style, root)[0]);
                assert(same_part(style, p[1], r[1]));
                assert(p[1] == m[1]);
                assert(!is_lead(style, r[1]));
            } else {
                assert(root.skip(2) =~= Seq::<char>::empty());
                lemma_kept_nothing(stops(style, false), false);
            }
        }
    }
}

/// Whether what is left of a verbatim path below a root means the same in a path that is not: no
/// component is `.` or `..` or holds a `/`.
pub open spec fn settled(style: PathStyle, list: Seq<Seq<char>>) -> bool {
    forall|i: int|
        0 <= i < list.len() ==> #[trigger] list[i] != here() && list[i] != up() && (is_lead(style, list[i])
            || !list[i].contains('/'))
}

/// Whether what is left of the path `s` below `root` can be put under `root` again. On Unix it
/// always can. On Windows some texts do not go together: what is left may begin with a drive letter
/// (`D:` below `C:/`), it may complete a prefix (`x` below `//server`), and of a verbatim path it
/// may mean something else than in the path.
pub open spec fn reversible(style: PathStyle, s: Seq<char>, root: Seq<char>) -> bool {
    below(style, s, root) matches Some(rest) ==> {
        &&& root.len() > 0 ==> prefix_len(style, rest) == 0
        &&& prefix_len(style, joined_path(style, root, rest)) == prefix_len(style, s)
        &&& verbatim(style, s) ==> has_slash(style, s) && settled(
            style,
            parts(style, s).skip(parts(style, root).len() as int),
        )
    }
}

/// What is left of a path below a root, seen from the root, is the path again. It has the very
/// parts of the path where the root begins as the path does, drive letters in the same case.
pub proof fn lemma_strip_then_join(style: PathStyle, s: Seq<char>, root: Seq<char>)
    requires
        below(style, s, root) is Some,
        reversible(style, s, root),
    ensures
        same(style, joined_path(style, root, below(style, s, root)->0), s),
        parts(style, root).is_prefix_of(parts(style, s)) ==> parts(
            style,
            joined_path(style, root, below(style, s, root)->0),
        ) == parts(style, s),
        verbatim(style, joined_path(style, root, below(style, s, root)->0)) == verbatim(style, s),
{
    if root.len() == 0 {
        if verbatim(style, s) {
            lemma_strip_nothing_verbatim(style, s, root);
        } else {
            lemma_strip_nothing(style, s, root);
        }
    } else {
        lemma_under_prefix(style, s, root);
        if verbatim(style, s) {
            lemma_strip_verbatim(style, s, root);
        } else {
            lemma_under_leads(style, s, root);
            if leads(style, s).len() == leads(style, root).len() {
                lemma_strip_names(style, s, root);
            } else {
                lemma_strip_drive(style, s, root);
            }
        }
        let p = parts(style, s);
        let r = parts(style, root);
        let n = r.len() as int;
        let q = parts(style, joined_path(style, root, below(style, s, root)->0));
        assert(q.len() == p.len());
        assert forall|i: int| 0 <= i < p.len() implies same_part(style, #[trigger] q[i], p[i]) by {
            if i < n {
                assert(same_part(style, p[i], r[i]));
            } else {
                assert(q[i] == p.skip(n)[i - n]);
            }
        }
        if r.is_prefix_of(p) {
            assert(q =~= p);
        }
    }
}

/// A path under another has the same kind of prefix, of the same length.
proof fn lemma_under_prefix(style: PathStyle, s: Seq<char>, root: Seq<char>)
    requires
        under(style, s, root),
        root.len() > 0,
    ensures
        parts(style, root).len() > 0,
        prefix_len(style, s) == prefix_len(style, root),
        verbatim(style, s) == verbatim(style, root),
{
    let p = parts(style, s);
    let r = parts(style, root);
    lemma_prefix_len(style, s);
    lemma_prefix_len(style, root);
    if leads(style, root).len() == 0 {
        lemma_no_leads_again(style, root);
    }
    assert(r.len() > 0);
    lemma_first_part(style, s);
    lemma_first_part(style, root);
    assert(same_part(style, p[0], r[0]));
    assert(p[0].len() == r[0].len()) by {
        assert(lower_ascii(p[0]).len() == p[0].len());
        assert(lower_ascii(r[0]).len() == r[0].len());
    }
    if p[0] != r[0] {
        assert(is_drive_part(style, p[0]) && is_drive_part(style, r[0]));
    }
}

/// What the first part tells of the prefix of a path.
proof fn lemma_first_part(style: PathStyle, s: Seq<char>)
    requires
        parts(style, s).len() > 0,
    ensures
        is_verbatim_part(style, parts(style, s)[0]) == verbatim(style, s),
        is_prefix_part(style, parts(style, s)[0]) == (prefix_len(style, s) > 0),
        prefix_len(style, s) > 0 ==> parts(style, s)[0].len() == prefix_len(style, s) + 1,
{
    let p = parts(style, s);
    let l = leads(style, s);
    let k = prefix_len(style, s);
    lemma_prefix_len(style, s);
    lemma_lead_count(style, s);
    if l.len() > 0 {
        assert(p[0] == l[0]);
    } else {
        assert(p[0] == names(style, s)[0]);
        assert(!is_lead(style, names(style, s)[0]));
    }
    if k > 0 {
        let text = prefix_text(style, s);
        assert(p[0] =~= root_part(style) + text);
        assert(p[0].skip(1) =~= text);
        if verbatim(style, s) {
            lemma_verbatim_text(style, s);
        } else {
            lemma_leads(style, s);
        }
    } else if l.len() > 0 {
        assert(p[0] == root_part(style));
    }
    if verbatim(style, s) {
        lemma_verbatim_prefix(style, s);
    }
}

// ── Verbatim paths read again ───────────────────────────────────────────

/// What a verbatim prefix is written as.
proof fn lemma_verbatim_text(style: PathStyle, s: Seq<char>)
    requires
        verbatim(style, s),
    ensures
        ({
            let t = prefix_text(style, s);
            let k = prefix_len(style, s);
            &&& 4 <= k <= s.len()
            &&& t.len() == k
            &&& verbatim(style, t)
            &&& verbatim_share(style, s) ==> k >= 8 && t[7] == '\\'
            &&& forall|i: int| 0 <= i < k && (i != 7 || !verbatim_share(style, s)) ==> #[trigger] t[i] == s[i]
        }),
{
    lemma_prefix_len(style, s);
    let stop = stops(style, true);
    if verbatim_share(style, s) {
        lemma_two_names(s, 8, stop);
    } else {
        lemma_until(s, 4, stop);
    }
    let t = prefix_text(style, s);
    let k = prefix_len(style, s);
    assert(t[0] == s[0] && t[1] == s[1] && t[2] == s[2] && t[3] == s[3]);
}

/// The components of a verbatim path hold no backslash.
proof fn lemma_verbatim_names(style: PathStyle, s: Seq<char>)
    requires
        verbatim(style, s),
    ensures
        unslashed_all(names(style, s)),
{
    let rest = s.skip(lead_len(style, s));
    lemma_split_pieces(rest, stops(style, true));
    lemma_filled(style, split(rest, stops(style, true)));
}

/// Whether every text is there and holds no backslash.
spec fn unslashed_all(list: Seq<Seq<char>>) -> bool {
    forall|i: int| 0 <= i < list.len() ==> (#[trigger] list[i]).len() > 0 && unslashed(list[i])
}

/// [`filled`] keeps pieces that are not empty.
proof fn lemma_filled_all(p: Seq<Seq<char>>)
    requires
        forall|i: int| 0 <= i < p.len() ==> (#[trigger] p[i]).len() > 0,
    ensures
        filled(p) == p,
    decreases p.len(),
{
    if p.len() > 0 {
        let init = p.drop_last();
        assert forall|i: int| 0 <= i < init.len() implies (#[trigger] init[i]).len() > 0 by {
            assert(init[i] == p[i]);
        }
        lemma_filled_all(init);
        assert(p.last() == p[p.len() - 1]);
        assert(init.push(p.last()) =~= p);
    } else {
        assert(filled(p) =~= p);
    }
}

/// Pieces are filled one list after the other.
proof fn lemma_filled_concat(a: Seq<Seq<char>>, b: Seq<Seq<char>>)
    ensures
        filled(a + b) == filled(a) + filled(b),
    decreases b.len(),
{
    if b.len() == 0 {
        assert(a + b =~= a);
        assert(filled(a) + filled(b) =~= filled(a));
    } else {
        lemma_filled_concat(a, b.drop_last());
        assert((a + b).drop_last() =~= a + b.drop_last());
        assert((a + b).last() == b.last());
        assert(filled(a + b) =~= filled(a) + filled(b));
    }
}

/// Nothing splits into nothing.
proof fn lemma_filled_nothing(stop: spec_fn(char) -> bool)
    ensures
        filled(split(Seq::<char>::empty(), stop)) == Seq::<Seq<char>>::empty(),
{
    reveal_with_fuel(filled, 2);
    let one = seq![Seq::<char>::empty()];
    assert(split(Seq::<char>::empty(), stop) =~= one);
    assert(one.drop_last() =~= Seq::<Seq<char>>::empty());
}

/// The components of a verbatim path are read again, whether or not one more backslash leads them.
proof fn lemma_filled_again(style: PathStyle, list: Seq<Seq<char>>)
    requires
        unslashed_all(list),
    ensures
        filled(split(joined(list, seq!['\\']), stops(style, true))) == list,
        filled(split(seq!['\\'] + joined(list, seq!['\\']), stops(style, true))) == list,
{
    let stop = stops(style, true);
    let text = joined(list, seq!['\\']);
    lemma_filled_nothing(stop);
    if list.len() > 0 {
        assert forall|i: int, j: int|
            #![trigger list[i][j]]
            0 <= i < list.len() && 0 <= j < list[i].len() implies !stop(list[i][j]) by {
            assert(unslashed(list[i]));
        }
        lemma_split_joined(list, '\\', stop);
        lemma_filled_all(list);
    } else {
        assert(text =~= Seq::<char>::empty());
        assert(list =~= Seq::<Seq<char>>::empty());
    }
    let none = Seq::<char>::empty();
    lemma_split_concat(none, '\\', text, stop);
    assert(none + seq!['\\'] + text =~= seq!['\\'] + text);
    lemma_filled_concat(split(none, stop), split(text, stop));
    assert(Seq::<Seq<char>>::empty() + list =~= list);
}

/// A verbatim prefix, a root and components are read again, where the prefix does not become
/// another one.
proof fn lemma_verbatim_again(style: PathStyle, s: Seq<char>, gap: Seq<char>, list: Seq<Seq<char>>)
    requires
        verbatim(style, s),
        unslashed_all(list),
        gap == seq!['\\'] || gap == seq!['\\', '\\'],
        prefix_len(style, prefix_text(style, s) + gap + joined(list, seq!['\\'])) == prefix_len(style, s),
    ensures
        ({
            let t = prefix_text(style, s) + gap + joined(list, seq!['\\']);
            &&& verbatim(style, t)
            &&& parts(style, t) == seq![root_part(style) + prefix_text(style, s), root_part(style)] + list
        }),
{
    let front = prefix_text(style, s);
    let tail = joined(list, seq!['\\']);
    let t = front + gap + tail;
    let k = prefix_len(style, s);
    lemma_verbatim_text(style, s);
    assert(forall|i: int| 0 <= i < k ==> t[i] == front[i]);
    assert(t[0] == front[0] && t[1] == front[1] && t[2] == front[2] && t[3] == front[3]);
    assert(verbatim(style, t));
    assert(t[k] == '\\');
    lemma_verbatim_text(style, t);
    assert(verbatim_share(style, t) == verbatim_share(style, s)) by {
        if verbatim_share(style, s) {
            assert(t[4] == front[4] && t[5] == front[5] && t[6] == front[6] && t[7] == front[7]);
        } else if verbatim_share(style, t) {
            assert(t[4] == front[4] && t[5] == front[5] && t[6] == front[6] && t[7] == front[7]);
            assert(front[4] == s[4] && front[5] == s[5] && front[6] == s[6] && front[7] == s[7]);
        }
    }
    assert(prefix_text(style, t) =~= front) by {
        assert forall|i: int| 0 <= i < k implies #[trigger] prefix_text(style, t)[i] == front[i] by {
            assert(t[i] == front[i]);
        }
    }
    lemma_filled_again(style, list);
    if gap.len() == 1 {
        assert(t.skip(k + 1) =~= tail);
    } else {
        assert(t.skip(k + 1) =~= seq!['\\'] + tail);
    }
    assert(names(style, t) == list);
    assert(leads(style, t) =~= seq![root_part(style) + front, root_part(style)]);
}

/// A path without a prefix is read from its components.
proof fn lemma_plain_rest(style: PathStyle, list: Seq<Seq<char>>)
    requires
        plain(style, list),
        tidy(list, true),
    ensures
        prefix_len(style, joined(list, seq!['/'])) == 0 ==> parts(style, joined(list, seq!['/'])) == list,
        parts(style, seq!['/'] + joined(list, seq!['/'])) == seq![root_part(style)] + list,
        prefix_len(style, seq!['/'] + joined(list, seq!['/'])) == 0,
{
    let text = joined(list, seq!['/']);
    lemma_names_again(style, list, false);
    lemma_names_again(style, list, true);
    assert(text.skip(0) =~= text);
    if prefix_len(style, text) == 0 {
        if verbatim(style, text) {
            lemma_verbatim_prefix(style, text);
        }
        assert(leads(style, text) =~= Seq::<Seq<char>>::empty());
        assert(parts(style, text) =~= list);
    }
    let slashed = seq!['/'] + text;
    assert(slashed[0] == '/');
    if text.len() > 0 {
        assert(slashed[1] == text[0]);
    }
    assert(prefix_len(style, slashed) == 0);
    assert(slashed.skip(1) =~= text);
    assert(leads(style, slashed) =~= seq![root_part(style)]);
}

/// Below the empty path lies the whole verbatim path.
proof fn lemma_strip_nothing_verbatim(style: PathStyle, s: Seq<char>, root: Seq<char>)
    requires
        verbatim(style, s),
        has_slash(style, s),
        root.len() == 0,
        below(style, s, root) is Some,
        prefix_len(style, joined_path(style, root, below(style, s, root)->0)) == prefix_len(style, s),
    ensures
        same(style, joined_path(style, root, below(style, s, root)->0), s),
        parts(style, joined_path(style, root, below(style, s, root)->0)) == parts(style, s),
        verbatim(style, joined_path(style, root, below(style, s, root)->0)),
{
    let p = parts(style, s);
    let rest = below(style, s, root)->0;
    let t = joined_path(style, root, rest);
    let list = names(style, s);
    assert(root =~= Seq::<char>::empty());
    assert(root.skip(0) =~= root);
    lemma_kept_nothing(stops(style, false), false);
    assert(parts(style, root) =~= Seq::<Seq<char>>::empty());
    assert(p.skip(0) =~= p);
    assert(t =~= rest) by {
        assert(root.take(0) + rest =~= rest);
        assert(root + rest =~= rest);
    }
    lemma_lead_count(style, s);
    lemma_first_part(style, s);
    lemma_verbatim_names(style, s);
    lemma_verbatim_text(style, s);
    let l = leads(style, s);
    assert(l =~= seq![root_part(style) + prefix_text(style, s), root_part(style)]);
    assert(p[0] == l[0] && p[1] == l[1]);
    assert(p[0].skip(1) =~= prefix_text(style, s));
    let gap = verbatim_root(style, p[0]);
    assert(rest == prefix_text(style, s) + gap + joined(list, seq!['\\']));
    lemma_verbatim_again(style, s, gap, list);
    assert(parts(style, t) == p);
}

/// Components that name something follow what was walked before.
proof fn lemma_walked(style: PathStyle, p: Seq<Seq<char>>, front: Seq<Seq<char>>, list: Seq<Seq<char>>)
    requires
        forall|i: int|
            0 <= i < list.len() ==> #[trigger] list[i] != root_part(style) && list[i] != here() && list[i] != up(),
    ensures
        walked(style, p, front + list) == walked(style, p, front) + list,
    decreases list.len(),
{
    if list.len() == 0 {
        assert(front + list =~= front);
        assert(walked(style, p, front) + list =~= walked(style, p, front));
    } else {
        let init = list.drop_last();
        assert forall|i: int| 0 <= i < init.len() implies #[trigger] init[i] != root_part(style) && init[i] != here() && init[i]
            != up() by {
            assert(init[i] == list[i]);
        }
        lemma_walked(style, p, front, init);
        assert((front + list).drop_last() =~= front + init);
        assert((front + list).last() == list[list.len() - 1]);
        assert((walked(style, p, front) + init).push(list.last()) =~= walked(style, p, front) + list);
    }
}

/// What is left of a verbatim path comes back under its root.
proof fn lemma_strip_verbatim(style: PathStyle, s: Seq<char>, root: Seq<char>)
    requires
        root.len() > 0,
        verbatim(style, s),
        verbatim(style, root),
        below(style, s, root) is Some,
        prefix_len(style, s) == prefix_len(style, root),
        reversible(style, s, root),
    ensures
        ({
            let t = joined_path(style, root, below(style, s, root)->0);
            &&& verbatim(style, t)
            &&& parts(style, t) == parts(style, root) + parts(style, s).skip(parts(style, root).len() as int)
        }),
{
    let p = parts(style, s);
    let r = parts(style, root);
    let n = r.len() as int;
    let tail = p.skip(n);
    let l = leads(style, s);
    lemma_lead_count(style, s);
    lemma_lead_count(style, root);
    lemma_verbatim_text(style, s);
    lemma_verbatim_text(style, root);
    lemma_verbatim_names(style, s);
    lemma_verbatim_names(style, root);
    assert(l =~= seq![root_part(style) + prefix_text(style, s), root_part(style)]);
    assert(p[0] == l[0] && p[1] == l[1]);
    assert(r[0] == leads(style, root)[0]);
    assert(r[0].skip(1) =~= prefix_text(style, root));
    if n == 1 {
        assert(names(style, root).len() == 0);
        lemma_strip_bare_verbatim(style, s, root);
    } else {
        assert(same_part(style, p[1], r[1]));
        assert(r[1] == root_part(style));
        assert(has_slash(style, root)) by {
            if !has_slash(style, root) {
                assert(r[1] == names(style, root)[0]);
                assert(!is_lead(style, r[1]));
            }
        }
        assert(leads(style, root) =~= seq![root_part(style) + prefix_text(style, root), root_part(style)]);
        assert(tail =~= names(style, s).skip(n - 2));
        assert(n - 2 == names(style, root).len());
        if tail.len() == 0 {
            assert(tail =~= Seq::<Seq<char>>::empty());
            assert(below(style, s, root)->0 =~= Seq::<char>::empty());
            lemma_join_verbatim_nothing(style, root);
            assert(r + tail =~= r);
        } else {
            assert(unslashed_all(tail)) by {
                assert forall|i: int| 0 <= i < tail.len() implies (#[trigger] tail[i]).len() > 0 && unslashed(tail[i]) by {
                    assert(tail[i] == names(style, s)[i + n - 2]);
                }
            }
            assert(unslashed(tail[0]) && tail[0][0] != '\\');
            assert(lead_count(style, tail) == 0);
            assert(tail.skip(0) =~= tail);
            assert(leads_text(style, tail, 0) + joined(tail, seq!['/']) =~= joined(tail, seq!['/']));
            assert(below(style, s, root)->0 == joined(tail, seq!['/']));
            lemma_join_verbatim_names(style, root, tail);
        }
    }
}

/// The empty path seen from a rooted verbatim directory.
proof fn lemma_join_verbatim_nothing(style: PathStyle, dir: Seq<char>)
    requires
        verbatim(style, dir),
        has_slash(style, dir),
        prefix_len(style, joined_path(style, dir, Seq::empty())) == prefix_len(style, dir),
    ensures
        verbatim(style, joined_path(style, dir, Seq::empty())),
        parts(style, joined_path(style, dir, Seq::empty())) == parts(style, dir),
{
    let none = Seq::<char>::empty();
    let t = joined_path(style, dir, none);
    let k = prefix_len(style, dir);
    let stop = stops(style, true);
    assert(prefix_len(style, none) == 0);
    lemma_verbatim_text(style, dir);
    if is_sep(style, dir.last()) {
        assert(t =~= dir);
    } else {
        assert(t =~= dir + seq!['\\']);
        assert(forall|i: int| 0 <= i < dir.len() ==> t[i] == dir[i]);
        assert(t[0] == dir[0] && t[1] == dir[1] && t[2] == dir[2] && t[3] == dir[3]);
        lemma_verbatim_text(style, t);
        assert(t[k] == dir[k]);
        assert(verbatim_share(style, t) == verbatim_share(style, dir)) by {
            if dir.len() >= 8 {
                assert(t[4] == dir[4] && t[5] == dir[5] && t[6] == dir[6] && t[7] == dir[7]);
            } else if verbatim_share(style, t) {
                assert(k >= 8);
            }
        }
        assert(prefix_text(style, t) =~= prefix_text(style, dir)) by {
            assert forall|i: int| 0 <= i < k implies #[trigger] prefix_text(style, t)[i] == prefix_text(style, dir)[i] by {
                assert(t[i] == dir[i]);
            }
        }
        let rest = dir.skip(k + 1);
        assert(t.skip(k + 1) =~= rest + seq!['\\'] + none);
        lemma_split_concat(rest, '\\', none, stop);
        lemma_filled_concat(split(rest, stop), split(none, stop));
        lemma_filled_nothing(stop);
        assert(names(style, t) =~= names(style, dir));
        assert(leads(style, t) =~= leads(style, dir));
    }
}

/// Components without a slash are plain where they hold no backslash either.
proof fn lemma_settled_plain(style: PathStyle, list: Seq<Seq<char>>)
    requires
        style == PathStyle::Windows,
        unslashed_all(list),
        settled(style, list),
    ensures
        plain(style, list),
        tidy(list, true),
        forall|i: int| 0 <= i < list.len() ==> #[trigger] list[i] != root_part(style) && list[i] != here() && list[i] != up(),
{
    assert forall|i: int, j: int|
        #![trigger list[i][j]]
        0 <= i < list.len() && 0 <= j < list[i].len() implies !is_sep(style, list[i][j]) by {
        assert(unslashed(list[i]));
        assert(list[i][0] != '\\');
        assert(!list[i].contains('/'));
        assert(list[i].contains(list[i][j]));
    }
    assert forall|i: int| 0 <= i < list.len() implies #[trigger] list[i] != root_part(style) && list[i] != here() && list[i]
        != up() by {
        assert(unslashed(list[i]));
        assert(list[i][0] != '\\');
    }
}

/// Components seen from a rooted verbatim directory.
proof fn lemma_join_verbatim_names(style: PathStyle, dir: Seq<char>, tail: Seq<Seq<char>>)
    requires
        verbatim(style, dir),
        has_slash(style, dir),
        tail.len() > 0,
        unslashed_all(tail),
        settled(style, tail),
        prefix_len(style, joined(tail, seq!['/'])) == 0,
        prefix_len(style, joined_path(style, dir, joined(tail, seq!['/']))) == prefix_len(style, dir),
    ensures
        verbatim(style, joined_path(style, dir, joined(tail, seq!['/']))),
        parts(style, joined_path(style, dir, joined(tail, seq!['/']))) == parts(style, dir) + tail,
{
    let name = joined(tail, seq!['/']);
    let r = parts(style, dir);
    let l = leads(style, dir);
    lemma_settled_plain(style, tail);
    lemma_names_again(style, tail, true);
    lemma_plain_rest(style, tail);
    lemma_verbatim_text(style, dir);
    lemma_verbatim_names(style, dir);
    let none = Seq::<Seq<char>>::empty();
    lemma_walked(style, r, none, tail);
    assert(none + tail =~= tail);
    let q = r + tail;
    assert(l =~= seq![root_part(style) + prefix_text(style, dir), root_part(style)]);
    assert(q[0] == l[0] && q[1] == l[1]);
    assert(q[0].skip(1) =~= prefix_text(style, dir));
    let list = names(style, dir) + tail;
    assert(q.skip(2) =~= list);
    assert(unslashed_all(list)) by {
        assert forall|i: int| 0 <= i < list.len() implies (#[trigger] list[i]).len() > 0 && unslashed(list[i]) by {
            if i < names(style, dir).len() {
                assert(list[i] == names(style, dir)[i]);
            } else {
                assert(list[i] == tail[i - names(style, dir).len()]);
            }
        }
    }
    lemma_verbatim_again(style, dir, seq!['\\'], list);
    assert(l + list =~= q);
}

/// What is left of a verbatim path below its prefix comes back.
proof fn lemma_strip_bare_verbatim(style: PathStyle, s: Seq<char>, root: Seq<char>)
    requires
        root.len() > 0,
        verbatim(style, s),
        verbatim(style, root),
        parts(style, root).len() == 1,
        below(style, s, root) is Some,
        prefix_len(style, s) == prefix_len(style, root),
        reversible(style, s, root),
    ensures
        ({
            let t = joined_path(style, root, below(style, s, root)->0);
            &&& verbatim(style, t)
            &&& parts(style, t) == parts(style, root) + parts(style, s).skip(1)
        }),
{
    let p = parts(style, s);
    let r = parts(style, root);
    let tail = p.skip(1);
    let list = names(style, s);
    let l = leads(style, s);
    lemma_lead_count(style, s);
    lemma_verbatim_text(style, s);
    lemma_verbatim_text(style, root);
    lemma_verbatim_names(style, s);
    assert(l =~= seq![root_part(style) + prefix_text(style, s), root_part(style)]);
    assert(p[0] == l[0] && p[1] == l[1]);
    assert(tail =~= seq![root_part(style)] + list);
    assert(settled(style, list)) by {
        assert forall|i: int| 0 <= i < list.len() implies #[trigger] list[i] != here() && list[i] != up() && (is_lead(
            style,
            list[i],
        ) || !list[i].contains('/')) by {
            assert(list[i] == tail[i + 1]);
        }
    }
    lemma_settled_plain(style, list);
    lemma_plain_rest(style, list);
    assert(tail[0] == root_part(style));
    if list.len() > 0 {
        assert(tail[1] == list[0]);
        assert(!is_lead(style, list[0]));
    }
    assert(lead_count(style, tail) == 1);
    assert(tail.skip(1) =~= list);
    assert(!is_verbatim_part(style, tail[0])) by {
        assert(tail[0].skip(1).len() == 0);
    }
    let rest = below(style, s, root)->0;
    assert(rest =~= seq!['/'] + joined(list, seq!['/']));
    assert(parts(style, rest) == tail);
    let front = seq![root_part(style)];
    lemma_walked(style, r, front, list);
    reveal_with_fuel(walked, 2);
    assert(front.drop_last() =~= Seq::<Seq<char>>::empty());
    assert(walked(style, r, front) =~= r + front);
    let q = r + tail;
    assert(walked(style, r, tail) =~= q);
    assert(r[0] == leads(style, root)[0]);
    assert(q[0] == r[0] && q[1] == root_part(style));
    assert(q[0].skip(1) =~= prefix_text(style, root));
    assert(q.skip(2) =~= list);
    lemma_verbatim_again(style, root, seq!['\\'], list);
    assert(seq![root_part(style) + prefix_text(style, root), root_part(style)] + list =~= q);
}

// ── Other paths read again ──────────────────────────────────────────────

/// Below the empty path lies the whole path.
proof fn lemma_strip_nothing(style: PathStyle, s: Seq<char>, root: Seq<char>)
    requires
        !verbatim(style, s),
        root.len() == 0,
        below(style, s, root) is Some,
    ensures
        same(style, joined_path(style, root, below(style, s, root)->0), s),
        parts(style, joined_path(style, root, below(style, s, root)->0)) == parts(style, s),
        !verbatim(style, joined_path(style, root, below(style, s, root)->0)),
{
    let p = parts(style, s);
    let rest = below(style, s, root)->0;
    let t = joined_path(style, root, rest);
    assert(root =~= Seq::<char>::empty());
    assert(root.skip(0) =~= root);
    lemma_kept_nothing(stops(style, false), false);
    assert(parts(style, root) =~= Seq::<Seq<char>>::empty());
    assert(p.skip(0) =~= p);
    lemma_clean_keeps_parts(style, s);
    assert(rest == clean(style, s));
    assert(t =~= rest) by {
        assert(root.take(0) + rest =~= rest);
        assert(root + rest =~= rest);
    }
    lemma_clean_idempotent(style, s);
    assert(parts(style, t) == p);
}

/// Components left below a root come back under it.
proof fn lemma_strip_names(style: PathStyle, s: Seq<char>, root: Seq<char>)
    requires
        !verbatim(style, s),
        !verbatim(style, root),
        root.len() > 0,
        below(style, s, root) is Some,
        leads(style, s).len() == leads(style, root).len(),
        rooted(style, s) == rooted(style, root),
        prefix_len(style, below(style, s, root)->0) == 0,
        prefix_len(style, joined_path(style, root, below(style, s, root)->0)) == prefix_len(style, root),
    ensures
        ({
            let t = joined_path(style, root, below(style, s, root)->0);
            &&& !verbatim(style, t)
            &&& parts(style, t) == parts(style, root) + parts(style, s).skip(parts(style, root).len() as int)
        }),
{
    let p = parts(style, s);
    let r = parts(style, root);
    let n = r.len() as int;
    let tail = p.skip(n);
    let k = leads(style, root).len() as int;
    let list = names(style, s);
    lemma_components(style, s);
    lemma_lead_count(style, s);
    lemma_lead_count(style, root);
    assert(tail =~= list.skip(n - k)) by {
        assert(p.skip(k) == list);
    }
    assert(n - k == names(style, root).len());
    lemma_tidy_tail(style, list, n - k, rooted(style, s));
    lemma_plain_is_no_lead(style, tail);
    if tail.len() > 0 {
        assert(!is_lead(style, tail[0]));
    }
    assert(lead_count(style, tail) == 0);
    assert(tail.skip(0) =~= tail);
    assert(below(style, s, root)->0 =~= joined(tail, seq!['/']));
    lemma_join_names(style, root, tail);
}

/// Components that follow others are plain and tidy as they are.
proof fn lemma_tidy_tail(style: PathStyle, list: Seq<Seq<char>>, m: int, rooted: bool)
    requires
        plain(style, list),
        tidy(list, rooted),
        0 <= m <= list.len(),
    ensures
        plain(style, list.skip(m)),
        tidy(list.skip(m), rooted || m > 0),
{
    let tail = list.skip(m);
    assert forall|i: int, j: int|
        #![trigger tail[i][j]]
        0 <= i < tail.len() && 0 <= j < tail[i].len() implies !is_sep(style, tail[i][j]) by {
        assert(tail[i] == list[i + m]);
        assert(!is_sep(style, list[i + m][j]));
    }
    assert forall|i: int| 0 <= i < tail.len() implies (#[trigger] tail[i]).len() > 0 && (tail[i] == here() ==> i == 0 && !(rooted
        || m > 0)) by {
        assert(tail[i] == list[i + m]);
    }
}

/// What is left below a drive without a root comes back on the drive.
proof fn lemma_strip_drive(style: PathStyle, s: Seq<char>, root: Seq<char>)
    requires
        !verbatim(style, s),
        has_drive(style, root),
        root.len() == 2,
        parts(style, root).len() == 1,
        leads(style, s).len() == 2,
        below(style, s, root) is Some,
    ensures
        ({
            let t = joined_path(style, root, below(style, s, root)->0);
            &&& !verbatim(style, t)
            &&& parts(style, t) == parts(style, root) + parts(style, s).skip(1)
        }),
{
    let p = parts(style, s);
    let tail = p.skip(1);
    let list = names(style, s);
    lemma_components(style, s);
    lemma_lead_count(style, s);
    assert(leads(style, s)[1] == root_part(style));
    assert(p[1] == root_part(style));
    assert(tail =~= seq![root_part(style)] + list);
    assert(tail[0] == root_part(style));
    assert(rooted(style, s));
    if list.len() > 0 {
        assert(tail[1] == list[0]);
        assert(!is_lead(style, list[0]));
    }
    assert(lead_count(style, tail) == 1);
    assert(tail.skip(1) =~= list);
    assert(!is_verbatim_part(style, tail[0])) by {
        assert(tail[0].skip(1).len() == 0);
    }
    assert(below(style, s, root)->0 =~= seq!['/'] + joined(list, seq!['/']));
    lemma_join_root(style, root, list);
    assert(parts(style, root) + seq![root_part(style)] + list =~= parts(style, root) + tail);
}

/// What is left below a root can be put back, of a path that is not verbatim, where it begins with
/// no drive letter and the root is no unfinished share or device (`//server`, `//./`).
pub proof fn lemma_reversible(style: PathStyle, s: Seq<char>, root: Seq<char>)
    requires
        !verbatim(style, s),
        below(style, s, root) is Some,
        root.len() > 0 ==> !has_drive(style, below(style, s, root)->0),
        style == PathStyle::Windows && two_seps(style, root) ==> prefix_len(style, root) > 0 && !is_sep(
            style,
            root[prefix_len(style, root) - 1],
        ),
    ensures
        reversible(style, s, root),
{
    if root.len() == 0 {
        lemma_strip_nothing(style, s, root);
        lemma_clean_keeps_parts(style, s);
        let p = parts(style, s);
        assert(parts(style, root).len() == 0) by {
            assert(root =~= Seq::<char>::empty());
            assert(root.skip(0) =~= root);
            lemma_kept_nothing(stops(style, false), false);
        }
        assert(p.skip(0) =~= p);
        let rest = below(style, s, root)->0;
        assert(rest == clean(style, s));
        assert(joined_path(style, root, rest) =~= rest) by {
            assert(root.take(0) + rest =~= rest);
            assert(root + rest =~= rest);
        }
    } else {
        lemma_under_prefix(style, s, root);
        lemma_under_leads(style, s, root);
        lemma_rest_text(style, s, root);
        let rest = below(style, s, root)->0;
        if leads(style, s).len() == leads(style, root).len() {
            lemma_appended_prefix(style, root, rest);
            lemma_prefix_len(style, rest);
            assert(joined_path(style, root, rest) =~= appended(style, root, rest));
        } else {
            let t = joined_path(style, root, rest);
            assert(root.take(2) =~= root);
            assert(t =~= root + rest);
            assert(t[0] == root[0] && t[1] == root[1]);
        }
    }
}

/// How what is left below a root begins.
proof fn lemma_rest_text(style: PathStyle, s: Seq<char>, root: Seq<char>)
    requires
        !verbatim(style, s),
        !verbatim(style, root),
        root.len() > 0,
        below(style, s, root) is Some,
    ensures
        ({
            let rest = below(style, s, root)->0;
            &&& leads(style, s).len() == leads(style, root).len() ==> rest.len() > 0 ==> !is_sep(style, rest[0])
            &&& leads(style, s).len() != leads(style, root).len() ==> rest.len() > 0 && rest[0] == '/' && !two_seps(
                style,
                rest,
            ) && prefix_len(style, rest) == 0
        }),
{
    let p = parts(style, s);
    let n = parts(style, root).len() as int;
    let tail = p.skip(n);
    let k = leads(style, root).len() as int;
    let list = names(style, s);
    let rest = below(style, s, root)->0;
    lemma_under_leads(style, s, root);
    lemma_components(style, s);
    lemma_lead_count(style, s);
    lemma_lead_count(style, root);
    if leads(style, s).len() == k {
        assert(tail =~= list.skip(n - k)) by {
            assert(p.skip(k) == list);
        }
        lemma_tidy_tail(style, list, n - k, rooted(style, s));
        lemma_plain_is_no_lead(style, tail);
        if tail.len() > 0 {
            assert(!is_lead(style, tail[0]));
        }
        assert(tail.skip(0) =~= tail);
        assert(rest =~= joined(tail, seq!['/']));
        lemma_names_again(style, tail, rooted(style, s) || n - k > 0);
    } else {
        assert(leads(style, s)[1] == root_part(style));
        assert(p[1] == root_part(style));
        assert(tail =~= seq![root_part(style)] + list);
        assert(tail[0] == root_part(style));
        if list.len() > 0 {
            assert(tail[1] == list[0]);
            assert(!is_lead(style, list[0]));
        }
        assert(tail.skip(1) =~= list);
        assert(tail[0].skip(1).len() == 0);
        assert(rest =~= seq!['/'] + joined(list, seq!['/']));
        lemma_names_again(style, list, true);
        lemma_plain_rest(style, list);
        if list.len() > 0 {
            assert(rest[1] == joined(list, seq!['/'])[0]);
        }
    }
}

/// A finished prefix stays as it is when a name follows.
proof fn lemma_appended_prefix(style: PathStyle, dir: Seq<char>, name: Seq<char>)
    requires
        dir.len() > 0,
        !verbatim(style, dir),
        name.len() > 0 ==> !is_sep(style, name[0]),
        style == PathStyle::Windows && two_seps(style, dir) ==> prefix_len(style, dir) > 0 && !is_sep(
            style,
            dir[prefix_len(style, dir) - 1],
        ),
    ensures
        prefix_len(style, appended(style, dir, name)) == prefix_len(style, dir),
{
    let t = appended(style, dir, name);
    let k = prefix_len(style, dir);
    let stop = stops(style, false);
    lemma_prefix_len(style, dir);
    assert(forall|i: int| 0 <= i < dir.len() ==> t[i] == dir[i]);
    if style == PathStyle::Windows {
        if dir.len() == 1 {
            assert(t[0] == dir[0]);
            if is_sep(style, dir[0]) {
                if name.len() > 0 {
                    assert(t[1] == name[0]);
                }
            } else {
                assert(t[1] == main_sep(style));
            }
        } else {
            assert(t[0] == dir[0] && t[1] == dir[1]);
            if two_seps(style, dir) {
                lemma_until(dir, 2, stop);
                assert(k < t.len() ==> stop(t[k])) by {
                    if k == dir.len() {
                        assert(dir.last() == dir[k - 1]);
                        assert(t[k] == main_sep(style));
                    } else {
                        assert(t[k] == dir[k]);
                        if dir.len() >= 4 {
                            lemma_until(dir, 4, stop);
                        }
                        lemma_two_names(dir, 2, stop);
                        lemma_until(dir, until(dir, 2, stop) + 1, stop);
                    }
                }
                assert(dir.len() >= 4 && t.len() >= 4);
                assert(t[2] == dir[2] && t[3] == dir[3]);
                if dir[2] == '.' && is_sep(style, dir[3]) {
                    lemma_until(dir, 4, stop);
                    assert forall|j: int| 4 <= j < k implies !stop(#[trigger] t[j]) by {
                        assert(!stop(dir[j]));
                    }
                    lemma_until_is(t, 4, stop, k);
                } else {
                    let e = until(dir, 2, stop);
                    lemma_until(dir, e + 1, stop);
                    assert forall|j: int| 2 <= j < e implies !stop(#[trigger] t[j]) by {
                        assert(!stop(dir[j]));
                    }
                    assert(t[e] == dir[e]);
                    lemma_until_is(t, 2, stop, e);
                    assert forall|j: int| e + 1 <= j < k implies !stop(#[trigger] t[j]) by {
                        assert(!stop(dir[j]));
                    }
                    lemma_until_is(t, e + 1, stop, k);
                }
            }
        }
    }
}

/// On Unix the file name of what is seen from a directory is the name that was given.
pub proof fn lemma_join_name(dir: Seq<char>, name: Seq<char>)
    requires
        name.len() > 0,
        !name.contains('/'),
        name != here(),
        name != up(),
    ensures
        name_of(PathStyle::Unix, joined_path(PathStyle::Unix, dir, name)) == Some(name),
{
    let style = PathStyle::Unix;
    let stop = stops(style, false);
    assert forall|i: int| 0 <= i < name.len() implies !stop(#[trigger] name[i]) by {
        assert(name.contains(name[i]));
    }
    lemma_split_whole(name, stop);
    reveal_with_fuel(kept, 2);
    let one = seq![name];
    assert(one.drop_last() =~= Seq::<Seq<char>>::empty());
    assert(Seq::<Seq<char>>::empty().push(name) =~= one);
    assert(kept(one, true) == one && kept(one, false) == one);
    assert(!is_sep(style, name[0])) by {
        assert(!stop(name[0]));
    }
    let t = joined_path(style, dir, name);
    if dir.len() == 0 {
        assert(t =~= name);
        assert(t.skip(0) =~= t);
        assert(parts(style, t) =~= one);
    } else {
        lemma_join_parts(style, dir, name);
        assert(parts(style, t).last() == name);
    }
}

/// On Unix the ancestors of an absolute path are what is left of it when its last components are
/// taken away.
pub proof fn lemma_unix_ancestor(s: Seq<char>, i: int)
    requires
        absolute(PathStyle::Unix, s),
        0 <= i < ancestors_of(PathStyle::Unix, s).len(),
    ensures
        ancestors_of(PathStyle::Unix, s).len() == parts(PathStyle::Unix, s).len(),
        parts(PathStyle::Unix, ancestors_of(PathStyle::Unix, s)[i]) == parts(PathStyle::Unix, s).take(
            parts(PathStyle::Unix, s).len() - i,
        ),
        under(PathStyle::Unix, s, ancestors_of(PathStyle::Unix, s)[i]),
{
    let style = PathStyle::Unix;
    let p = parts(style, s);
    let n = p.len() - i;
    let list = names(style, s);
    lemma_components(style, s);
    lemma_lead_count(style, s);
    assert(leads(style, s) =~= seq![root_part(style)]);
    assert(p[0] == root_part(style));
    let front = list.take(n - 1);
    let q = p.take(n);
    assert(q =~= seq![root_part(style)] + front);
    assert(plain(style, front)) by {
        assert forall|x: int, y: int|
            #![trigger front[x][y]]
            0 <= x < front.len() && 0 <= y < front[x].len() implies !is_sep(style, front[x][y]) by {
            assert(front[x] == list[x]);
            assert(!is_sep(style, list[x][y]));
        }
    }
    assert(tidy(front, true)) by {
        assert forall|x: int| 0 <= x < front.len() implies (#[trigger] front[x]).len() > 0 && front[x] != here() by {
            assert(front[x] == list[x]);
        }
    }
    lemma_plain_is_no_lead(style, front);
    if front.len() > 0 {
        assert(q[1] == front[0]);
    }
    assert(q[0] == root_part(style));
    assert(lead_count(style, q) == 1);
    assert(q.skip(1) =~= front);
    lemma_plain_rest(style, front);
    assert(render(style, q) =~= seq!['/'] + joined(front, seq!['/']));
}

/// On Unix what is left below an absolute root is relative and in its shortest spelling.
pub proof fn lemma_unix_rest(s: Seq<char>, root: Seq<char>)
    requires
        absolute(PathStyle::Unix, root),
        below(PathStyle::Unix, s, root) is Some,
    ensures
        clean(PathStyle::Unix, below(PathStyle::Unix, s, root)->0) == below(PathStyle::Unix, s, root)->0,
        !absolute(PathStyle::Unix, below(PathStyle::Unix, s, root)->0),
        parts(PathStyle::Unix, below(PathStyle::Unix, s, root)->0) == parts(PathStyle::Unix, s).skip(
            parts(PathStyle::Unix, root).len() as int,
        ),
{
    let style = PathStyle::Unix;
    let p = parts(style, s);
    let n = parts(style, root).len() as int;
    let tail = p.skip(n);
    let k = leads(style, root).len() as int;
    let list = names(style, s);
    let rest = below(style, s, root)->0;
    lemma_under_leads(style, s, root);
    lemma_components(style, s);
    lemma_lead_count(style, s);
    lemma_lead_count(style, root);
    assert(tail =~= list.skip(n - k)) by {
        assert(p.skip(k) == list);
    }
    lemma_tidy_tail(style, list, n - k, rooted(style, s));
    lemma_plain_is_no_lead(style, tail);
    if tail.len() > 0 {
        assert(!is_lead(style, tail[0]));
    }
    assert(tail.skip(0) =~= tail);
    assert(rest =~= joined(tail, seq!['/']));
    lemma_plain_rest(style, tail);
    lemma_names_again(style, tail, true);
    assert(render(style, tail) == rest);
}

/// On Unix every root begins as the paths under it do, and what is left can always be put back.
pub proof fn lemma_unix_under(s: Seq<char>, root: Seq<char>)
    requires
        under(PathStyle::Unix, s, root),
    ensures
        parts(PathStyle::Unix, root).is_prefix_of(parts(PathStyle::Unix, s)),
        reversible(PathStyle::Unix, s, root),
{
    let p = parts(PathStyle::Unix, s);
    let r = parts(PathStyle::Unix, root);
    assert(r =~= p.take(r.len() as int)) by {
        assert forall|i: int| 0 <= i < r.len() implies r[i] == p[i] by {
            assert(same_part(PathStyle::Unix, p[i], r[i]));
        }
    }
}

// ── Windows spellings ───────────────────────────────────────────────────

/// What a character comes to in a Windows key: one slash, one case.
pub open spec fn folded(c: char) -> char {
    if c == '\\' {
        '/'
    } else {
        ascii_lower(c)
    }
}

/// Whether two texts differ in nothing but the case of ASCII letters and the way slashes lean.
pub open spec fn alike(s: Seq<char>, t: Seq<char>) -> bool {
    s.len() == t.len() && forall|i: int| 0 <= i < s.len() ==> folded(#[trigger] s[i]) == folded(t[i])
}

/// Whether two lists of texts are alike.
spec fn all_alike(p: Seq<Seq<char>>, q: Seq<Seq<char>>) -> bool {
    p.len() == q.len() && forall|i: int| 0 <= i < p.len() ==> alike(#[trigger] p[i], q[i])
}

/// Characters that come to the same are separators, letters and dots alike.
proof fn lemma_folded(c: char, d: char)
    requires
        folded(c) == folded(d),
    ensures
        is_sep(PathStyle::Windows, c) == is_sep(PathStyle::Windows, d),
        is_letter(c) == is_letter(d),
        (c == ':') == (d == ':'),
        (c == '.') == (d == '.'),
        !is_sep(PathStyle::Windows, c) || c == '/' && d == '/' ==> ascii_lower(c) == ascii_lower(d),
{
}

/// Alike texts stay alike when a character is added to each.
proof fn lemma_alike_push(s: Seq<char>, t: Seq<char>, c: char, d: char)
    requires
        alike(s, t),
        folded(c) == folded(d),
    ensures
        alike(s.push(c), t.push(d)),
{
    assert forall|i: int| 0 <= i < s.push(c).len() implies folded(#[trigger] s.push(c)[i]) == folded(t.push(d)[i]) by {
        if i < s.len() {
            assert(folded(s[i]) == folded(t[i]));
        }
    }
}

/// Alike texts split alike.
proof fn lemma_alike_split(s: Seq<char>, t: Seq<char>)
    requires
        alike(s, t),
    ensures
        all_alike(split(s, stops(PathStyle::Windows, false)), split(t, stops(PathStyle::Windows, false))),
    decreases s.len(),
{
    let f = stops(PathStyle::Windows, false);
    if s.len() > 0 {
        let a = s.drop_last();
        let b = t.drop_last();
        assert forall|i: int| 0 <= i < a.len() implies folded(#[trigger] a[i]) == folded(b[i]) by {
            assert(a[i] == s[i]);
        }
        lemma_alike_split(a, b);
        lemma_split_nonempty(a, f);
        let n = s.len() - 1;
        assert(folded(s[n]) == folded(t[n]));
        lemma_folded(s[n], t[n]);
        let p = split(a, f);
        let q = split(b, f);
        let k = p.len() - 1;
        assert(alike(p[k], q[k]));
        lemma_alike_push(p[k], q[k], s[n], t[n]);
        let x = split(s, f);
        let y = split(t, f);
        assert forall|i: int| 0 <= i < x.len() implies alike(#[trigger] x[i], y[i]) by {
            if i < k {
                assert(x[i] == p[i] && y[i] == q[i]);
                assert(alike(p[i], q[i]));
            } else if i == k && f(s[n]) {
                assert(x[i] == p[i] && y[i] == q[i]);
            }
        }
    }
}

/// Alike pieces are kept alike.
proof fn lemma_alike_kept(p: Seq<Seq<char>>, q: Seq<Seq<char>>, rooted: bool)
    requires
        all_alike(p, q),
    ensures
        all_alike(kept(p, rooted), kept(q, rooted)),
    decreases p.len(),
{
    if p.len() > 0 {
        let a = p.drop_last();
        let b = q.drop_last();
        assert forall|i: int| 0 <= i < a.len() implies alike(#[trigger] a[i], b[i]) by {
            assert(a[i] == p[i]);
            assert(alike(p[i], q[i]));
        }
        lemma_alike_kept(a, b, rooted);
        let n = p.len() - 1;
        assert(alike(p[n], q[n]));
        assert((p[n] == here()) == (q[n] == here())) by {
            if p[n].len() == 1 {
                assert(folded(p[n][0]) == folded(q[n][0]));
                lemma_folded(p[n][0], q[n][0]);
                if p[n][0] == '.' {
                    assert(p[n] =~= here());
                    assert(q[n] =~= here());
                }
            }
        }
        let x = kept(p, rooted);
        let y = kept(q, rooted);
        assert forall|i: int| 0 <= i < x.len() implies alike(#[trigger] x[i], y[i]) by {
            if i < kept(a, rooted).len() {
                assert(alike(kept(a, rooted)[i], kept(b, rooted)[i]));
            }
        }
    }
}

/// Alike lists join alike.
proof fn lemma_alike_joined(p: Seq<Seq<char>>, q: Seq<Seq<char>>)
    requires
        all_alike(p, q),
    ensures
        alike(joined(p, seq!['/']), joined(q, seq!['/'])),
    decreases p.len(),
{
    if p.len() == 1 {
        assert(alike(p[0], q[0]));
    } else if p.len() > 1 {
        let a = p.drop_last();
        let b = q.drop_last();
        assert forall|i: int| 0 <= i < a.len() implies alike(#[trigger] a[i], b[i]) by {
            assert(a[i] == p[i]);
            assert(alike(p[i], q[i]));
        }
        lemma_alike_joined(a, b);
        let n = p.len() - 1;
        assert(alike(p[n], q[n]));
        let s = joined(a, seq!['/']);
        let t = joined(b, seq!['/']);
        let x = joined(p, seq!['/']);
        let y = joined(q, seq!['/']);
        assert forall|i: int| 0 <= i < x.len() implies folded(#[trigger] x[i]) == folded(y[i]) by {
            if i < s.len() {
                assert(x[i] == s[i] && y[i] == t[i]);
            } else if i > s.len() {
                assert(x[i] == p[n][i - s.len() - 1] && y[i] == q[n][i - s.len() - 1]);
            }
        }
    }
}

/// Alike texts stop alike.
proof fn lemma_alike_until(s: Seq<char>, t: Seq<char>, i: int)
    requires
        alike(s, t),
        0 <= i <= s.len(),
    ensures
        until(s, i, stops(PathStyle::Windows, false)) == until(t, i, stops(PathStyle::Windows, false)),
    decreases s.len() - i,
{
    if i < s.len() {
        assert(folded(s[i]) == folded(t[i]));
        lemma_folded(s[i], t[i]);
        lemma_alike_until(s, t, i + 1);
    }
}

/// Alike texts have alike prefixes.
proof fn lemma_alike_prefix(s: Seq<char>, t: Seq<char>)
    requires
        alike(s, t),
        !verbatim(PathStyle::Windows, s),
        !verbatim(PathStyle::Windows, t),
    ensures
        prefix_len(PathStyle::Windows, s) == prefix_len(PathStyle::Windows, t),
        has_slash(PathStyle::Windows, s) == has_slash(PathStyle::Windows, t),
        has_drive(PathStyle::Windows, s) == has_drive(PathStyle::Windows, t),
{
    let style = PathStyle::Windows;
    let stop = stops(style, false);
    assert forall|i: int| 0 <= i < s.len() implies is_sep(style, s[i]) == is_sep(style, #[trigger] t[i]) && is_letter(s[i])
        == is_letter(t[i]) && (s[i] == ':') == (t[i] == ':') && (s[i] == '.') == (t[i] == '.') by {
        assert(folded(s[i]) == folded(t[i]));
        lemma_folded(s[i], t[i]);
    }
    if s.len() > 0 {
        assert(is_sep(style, t[0]) == is_sep(style, s[0]));
    }
    if s.len() > 1 {
        assert(is_sep(style, t[1]) == is_sep(style, s[1]));
    }
    if s.len() > 3 {
        assert(is_sep(style, t[2]) == is_sep(style, s[2]));
        assert(is_sep(style, t[3]) == is_sep(style, s[3]));
    }
    if two_seps(style, s) {
        lemma_alike_until(s, t, 2);
        lemma_until(s, 2, stop);
        let e = until(s, 2, stop);
        if e < s.len() {
            lemma_alike_until(s, t, e + 1);
        }
        if s.len() >= 4 {
            lemma_alike_until(s, t, 4);
        }
    }
    lemma_prefix_len(style, s);
    let k = prefix_len(style, s);
    assert(prefix_len(style, t) == k);
    if k < s.len() {
        assert(is_sep(style, t[k]) == is_sep(style, s[k]));
    }
}

/// A shortest spelling holds no backslash, unless it is verbatim.
proof fn lemma_clean_slashes(s: Seq<char>)
    requires
        !verbatim(PathStyle::Windows, s),
    ensures
        forall|i: int| 0 <= i < clean(PathStyle::Windows, s).len() ==> #[trigger] clean(PathStyle::Windows, s)[i] != '\\',
{
    let style = PathStyle::Windows;
    lemma_components(style, s);
    lemma_leads(style, s);
    let l = leads(style, s);
    let front = leads_text(style, l, l.len() as int);
    let tail = joined(names(style, s), seq!['/']);
    lemma_joined_slashes(names(style, s));
    let text = clean(style, s);
    assert forall|i: int| 0 <= i < text.len() implies #[trigger] text[i] != '\\' by {
        if i < front.len() {
            assert(text[i] == front[i]);
            if i < prefix_len(style, s) {
                assert(front[i] == slash(style, s[i]));
            }
        } else {
            assert(text[i] == tail[i - front.len()]);
        }
    }
}

/// Plain parts joined hold no backslash.
proof fn lemma_joined_slashes(p: Seq<Seq<char>>)
    requires
        plain(PathStyle::Windows, p),
    ensures
        forall|i: int| 0 <= i < joined(p, seq!['/']).len() ==> #[trigger] joined(p, seq!['/'])[i] != '\\',
    decreases p.len(),
{
    if p.len() == 1 {
        assert forall|i: int| 0 <= i < p[0].len() implies #[trigger] p[0][i] != '\\' by {
            assert(!is_sep(PathStyle::Windows, p[0][i]));
        }
    } else if p.len() > 1 {
        let a = p.drop_last();
        let n = p.len() - 1;
        assert(plain(PathStyle::Windows, a)) by {
            assert forall|i: int, j: int|
                #![trigger a[i][j]]
                0 <= i < a.len() && 0 <= j < a[i].len() implies !is_sep(PathStyle::Windows, a[i][j]) by {
                assert(a[i][j] == p[i][j]);
            }
        }
        lemma_joined_slashes(a);
        let s = joined(a, seq!['/']);
        let x = joined(p, seq!['/']);
        assert forall|i: int| 0 <= i < x.len() implies #[trigger] x[i] != '\\' by {
            if i < s.len() {
                assert(x[i] == s[i]);
            } else if i > s.len() {
                assert(x[i] == p[n][i - s.len() - 1]);
                assert(!is_sep(PathStyle::Windows, p[n][i - s.len() - 1]));
            }
        }
    }
}

/// On Windows the key of a path depends neither on the case of its letters nor on which slashes
/// it is written with; the key of a verbatim path, on the case alone.
pub proof fn lemma_windows_keys_fold(s: Seq<char>, t: Seq<char>)
    requires
        alike(s, t),
        verbatim(PathStyle::Windows, s) || verbatim(PathStyle::Windows, t) ==> lower_ascii(s) == lower_ascii(t),
    ensures
        key_form(PathStyle::Windows, s) == key_form(PathStyle::Windows, t),
{
    let style = PathStyle::Windows;
    if verbatim(style, s) || verbatim(style, t) {
        assert(s.len() == lower_ascii(s).len() && t.len() == lower_ascii(t).len());
        assert forall|i: int| 0 <= i < s.len() implies ascii_lower(#[trigger] s[i]) == ascii_lower(t[i]) by {
            assert(lower_ascii(s)[i] == lower_ascii(t)[i]);
        }
        assert(s.len() >= 4);
        assert(ascii_lower(s[0]) == ascii_lower(t[0]) && ascii_lower(s[1]) == ascii_lower(t[1]) && ascii_lower(s[2])
            == ascii_lower(t[2]) && ascii_lower(s[3]) == ascii_lower(t[3]));
        assert(verbatim(style, s) && verbatim(style, t));
    } else {
        lemma_plain_keys_fold(s, t);
    }
}

/// The same of paths that are not verbatim.
proof fn lemma_plain_keys_fold(s: Seq<char>, t: Seq<char>)
    requires
        alike(s, t),
        !verbatim(PathStyle::Windows, s),
        !verbatim(PathStyle::Windows, t),
    ensures
        key_form(PathStyle::Windows, s) == key_form(PathStyle::Windows, t),
{
    let style = PathStyle::Windows;
    lemma_alike_prefix(s, t);
    let n = lead_len(style, s);
    let k = prefix_len(style, s);
    lemma_prefix_len(style, s);
    lemma_prefix_len(style, t);
    let a = s.skip(n);
    let b = t.skip(n);
    assert forall|i: int| 0 <= i < a.len() implies folded(#[trigger] a[i]) == folded(b[i]) by {
        assert(a[i] == s[n + i] && b[i] == t[n + i]);
    }
    lemma_alike_split(a, b);
    let p = names(style, s);
    let q = names(style, t);
    lemma_alike_kept(split(a, stops(style, false)), split(b, stops(style, false)), rooted(style, s));
    lemma_alike_joined(p, q);
    lemma_components(style, s);
    lemma_components(style, t);
    lemma_leads(style, s);
    lemma_leads(style, t);
    let x = clean(style, s);
    let y = clean(style, t);
    let r = leads_text(style, leads(style, s), leads(style, s).len() as int);
    let u = leads_text(style, leads(style, t), leads(style, t).len() as int);
    assert(r.len() == u.len());
    let m = r.len() as int;
    assert(alike(x, y)) by {
        assert forall|i: int| 0 <= i < x.len() implies folded(#[trigger] x[i]) == folded(y[i]) by {
            if i < m {
                assert(x[i] == r[i] && y[i] == u[i]);
                if i < k {
                    assert(folded(s[i]) == folded(t[i]));
                    lemma_folded(s[i], t[i]);
                    assert(r[i] == slash(style, s[i]) && u[i] == slash(style, t[i]));
                }
            } else {
                assert(x[i] == joined(p, seq!['/'])[i - m] && y[i] == joined(q, seq!['/'])[i - m]);
            }
        }
    }
    lemma_clean_slashes(s);
    lemma_clean_slashes(t);
    assert forall|i: int| 0 <= i < x.len() implies ascii_lower(#[trigger] x[i]) == ascii_lower(y[i]) by {
        assert(folded(x[i]) == folded(y[i]));
        assert(x[i] != '\\' && y[i] != '\\');
    }
    assert(lower_ascii(x) =~= lower_ascii(y));
}

// ── Executable readers ──────────────────────────────────────────────────

/// Whether `c` separates components.
fn separates(style: PathStyle, c: char) -> (yes: bool)
    ensures
        yes == is_sep(style, c),
{
    c == '/' || (style == PathStyle::Windows && c == '\\')
}

/// Whether `c` separates the components of a path; `v` says that it is verbatim.
fn is_stop(style: PathStyle, v: bool, c: char) -> (yes: bool)
    ensures
        yes == stops(style, v)(c),
{
    if v {
        c == '\\'
    } else {
        separates(style, c)
    }
}

/// Whether `c` is an ASCII letter.
fn letter(c: char) -> (yes: bool)
    ensures
        yes == is_letter(c),
{
    ('a' <= c && c <= 'z') || ('A' <= c && c <= 'Z')
}

/// The first separator from `from` on.
fn scan(style: PathStyle, v: bool, list: &[char], from: usize) -> (at: usize)
    requires
        from <= list@.len(),
    ensures
        at == until(list@, from as int, stops(style, v)),
        from <= at <= list@.len(),
{
    let mut i: usize = from;
    while i < list.len() && !is_stop(style, v, list[i])
        invariant
            from <= i <= list@.len(),
            until(list@, from as int, stops(style, v)) == until(list@, i as int, stops(style, v)),
        decreases list@.len() - i,
    {
        i = i + 1;
    }
    i
}

/// Where the two names that begin at `from` end.
fn scan_two(style: PathStyle, v: bool, list: &[char], from: usize) -> (at: usize)
    requires
        from <= list@.len(),
    ensures
        at == two_names(list@, from as int, stops(style, v)),
        from <= at <= list@.len(),
{
    let first = scan(style, v, list, from);
    if first < list.len() {
        let second = scan(style, v, list, first + 1);
        if second > first + 1 {
            return second;
        }
    }
    first
}

/// Whether the path begins with a drive letter.
fn begins_with_drive(style: PathStyle, list: &[char]) -> (yes: bool)
    ensures
        yes == has_drive(style, list@),
{
    style == PathStyle::Windows && list.len() >= 2 && letter(list[0]) && list[1] == ':'
}

/// Whether the path is verbatim.
fn is_verbatim(style: PathStyle, list: &[char]) -> (yes: bool)
    ensures
        yes == verbatim(style, list@),
{
    style == PathStyle::Windows && list.len() >= 4 && list[0] == '\\' && list[1] == '\\' && list[2] == '?' && list[3]
        == '\\'
}

/// Whether the path is verbatim and names a share.
fn is_verbatim_share(style: PathStyle, list: &[char]) -> (yes: bool)
    ensures
        yes == verbatim_share(style, list@),
{
    is_verbatim(style, list) && list.len() >= 8 && list[4] == 'U' && list[5] == 'N' && list[6] == 'C' && separates(
        style,
        list[7],
    )
}

/// The number of characters that write the prefix.
fn prefix_length(style: PathStyle, list: &[char]) -> (n: usize)
    ensures
        n == prefix_len(style, list@),
        n <= list@.len(),
{
    if style == PathStyle::Unix {
        return 0;
    }
    if is_verbatim(style, list) {
        if is_verbatim_share(style, list) {
            return scan_two(style, true, list, 8);
        }
        if list.len() >= 6 && letter(list[4]) && list[5] == ':' && (list.len() == 6 || separates(style, list[6])) {
            return 6;
        }
        return scan(style, true, list, 4);
    }
    if list.len() >= 2 && separates(style, list[0]) && separates(style, list[1]) {
        if list.len() >= 4 && list[2] == '.' && separates(style, list[3]) {
            return scan(style, false, list, 4);
        }
        let server = scan(style, false, list, 2);
        let share = scan_two(style, false, list, 2);
        if server > 2 && share > server {
            return share;
        }
        return 0;
    }
    if begins_with_drive(style, list) {
        2
    } else {
        0
    }
}

/// Whether a separator follows the prefix of length `n`.
fn slash_follows(style: PathStyle, list: &[char], n: usize) -> (yes: bool)
    requires
        n == prefix_len(style, list@),
    ensures
        yes == has_slash(style, list@),
{
    n < list.len() && separates(style, list[n])
}

/// Splits the characters from `from` on at the separators.
fn split_path(style: PathStyle, v: bool, list: &[char], from: usize) -> (pieces: Vec<String>)
    requires
        from <= list@.len(),
    ensures
        views(pieces@) == split(list@.skip(from as int), stops(style, v)),
{
    let ghost all = list@.skip(from as int);
    let mut pieces: Vec<String> = Vec::new();
    let mut piece = String::new();
    let mut i: usize = from;
    assert(views(pieces@).push(piece@) =~= split(all.take(0), stops(style, v)));
    while i < list.len()
        invariant
            from <= i <= list@.len(),
            all == list@.skip(from as int),
            views(pieces@).push(piece@) == split(all.take(i - from), stops(style, v)),
        decreases list@.len() - i,
    {
        let ghost now = all.take(i - from + 1);
        let ghost pieces0 = pieces@;
        let ghost piece0 = piece@;
        assert(now.drop_last() =~= all.take(i - from));
        assert(now.last() == list@[i as int]);
        if is_stop(style, v, list[i]) {
            pieces.push(piece);
            piece = String::new();
            assert(views(pieces@) =~= views(pieces0).push(piece0));
        } else {
            piece.push(list[i]);
            assert(views(pieces0).push(piece0).drop_last() =~= views(pieces0));
        }
        assert(views(pieces@).push(piece@) =~= split(now, stops(style, v)));
        i = i + 1;
    }
    assert(all.take(all.len() as int) =~= all);
    let ghost pieces0 = pieces@;
    let ghost piece0 = piece@;
    pieces.push(piece);
    assert(views(pieces@) =~= views(pieces0).push(piece0));
    pieces
}

/// Whether `text` is the component `.`.
fn is_here(text: &str) -> (yes: bool)
    ensures
        yes == (text@ == here()),
{
    let yes = text.unicode_len() == 1 && text.get_char(0) == '.';
    assert(yes ==> text@ =~= here());
    yes
}

/// Whether `text` is the component `..`.
fn is_up(text: &str) -> (yes: bool)
    ensures
        yes == (text@ == up()),
{
    let yes = text.unicode_len() == 2 && text.get_char(0) == '.' && text.get_char(1) == '.';
    assert(yes ==> text@ =~= up());
    yes
}

/// Whether `text` is a prefix or a root.
fn is_lead_text(style: PathStyle, text: &str) -> (yes: bool)
    ensures
        yes == is_lead(style, text@),
{
    text.unicode_len() > 0 && match style {
        PathStyle::Unix => text.get_char(0) == '/',
        PathStyle::Windows => text.get_char(0) == '\\',
    }
}

/// Whether `text` names something.
fn is_name_text(style: PathStyle, text: &str) -> (yes: bool)
    ensures
        yes == is_name(style, text@),
{
    !is_lead_text(style, text) && !is_here(text) && !is_up(text)
}

/// `text` without its first `n` characters.
fn skipped(text: &str, n: usize) -> (rest: Vec<char>)
    requires
        n <= text@.len(),
    ensures
        rest@ == text@.skip(n as int),
{
    let mut letters = chars(text);
    let rest = letters.split_off(n);
    assert(rest@ =~= text@.skip(n as int));
    rest
}

/// Whether `text` is the prefix for a drive.
fn is_drive_text(style: PathStyle, text: &str) -> (yes: bool)
    ensures
        yes == is_drive_part(style, text@),
{
    let n = text.unicode_len();
    if !is_lead_text(style, text) {
        return false;
    }
    let inner = skipped(text, 1);
    if n == 3 {
        begins_with_drive(style, &inner)
    } else if n == 7 && is_verbatim(style, &inner) {
        let rest = skipped(text, 5);
        begins_with_drive(style, &rest)
    } else {
        false
    }
}

/// The part for a root.
fn root_string(style: PathStyle) -> (part: String)
    ensures
        part@ == root_part(style),
{
    let mut part = String::new();
    match style {
        PathStyle::Unix => part.push('/'),
        PathStyle::Windows => part.push('\\'),
    }
    assert(part@ =~= root_part(style));
    part
}

/// The prefix of a path, in one spelling.
fn prefix_string(style: PathStyle, letters: &[char], n: usize) -> (text: String)
    requires
        n == prefix_len(style, letters@),
        n <= letters@.len(),
    ensures
        text@ == prefix_text(style, letters@),
{
    if is_verbatim(style, letters) {
        if is_verbatim_share(style, letters) {
            proof {
                lemma_two_names(letters@, 8, stops(style, true));
            }
            let mut text = text_of(letters, 0, 7);
            text.push('\\');
            let rest = text_of(letters, 8, n);
            text.append(rest.as_str());
            assert(text@ =~= prefix_text(style, letters@));
            return text;
        }
        let text = text_of(letters, 0, n);
        assert(text@ =~= prefix_text(style, letters@));
        return text;
    }
    let mut text = String::new();
    let mut i: usize = 0;
    while i < n
        invariant
            i <= n <= letters@.len(),
            text@.len() == i,
            forall|j: int| 0 <= j < i ==> #[trigger] text@[j] == slash(style, letters@[j]),
        decreases n - i,
    {
        if separates(style, letters[i]) {
            text.push('/');
        } else {
            text.push(letters[i]);
        }
        i = i + 1;
    }
    assert(text@ =~= prefix_text(style, letters@));
    text
}

/// The prefix and the root of a path, given the length of the prefix.
fn lead_list(style: PathStyle, letters: &[char], n: usize) -> (list: Vec<String>)
    requires
        n == prefix_len(style, letters@),
        n <= letters@.len(),
    ensures
        views(list@) == leads(style, letters@),
{
    let mut list: Vec<String> = Vec::new();
    if n > 0 {
        let mut part = root_string(style);
        let text = prefix_string(style, letters, n);
        part.append(text.as_str());
        list.push(part);
    }
    if slash_follows(style, letters, n) || (n > 0 && !is_verbatim(style, letters) && !begins_with_drive(style, letters)) {
        list.push(root_string(style));
    }
    assert(views(list@) =~= leads(style, letters@));
    list
}

/// Reads a path into its parts.
pub fn path_parts(style: PathStyle, text: &str) -> (list: Vec<String>)
    ensures
        views(list@) == parts(style, text@),
{
    let letters = chars(text);
    let prefix = prefix_length(style, &letters);
    let slashed = slash_follows(style, &letters, prefix);
    let v = is_verbatim(style, &letters);
    let with_root = slashed || (prefix > 0 && !v && !begins_with_drive(style, &letters));
    proof {
        lemma_prefix_len(style, letters@);
    }
    let n: usize = if slashed {
        prefix + 1
    } else {
        prefix
    };
    let pieces = split_path(style, v, &letters, n);
    let mut list = lead_list(style, &letters, prefix);
    let ghost lead = views(list@);
    let ghost all = views(pieces@);
    let mut i: usize = 0;
    assert(views(list@) =~= lead + kept(all.take(0), with_root));
    assert(views(list@) =~= lead + filled(all.take(0)));
    while i < pieces.len()
        invariant
            i <= pieces@.len(),
            all == views(pieces@),
            v ==> views(list@) == lead + filled(all.take(i as int)),
            !v ==> views(list@) == lead + kept(all.take(i as int), with_root),
        decreases pieces@.len() - i,
    {
        let ghost list0 = list@;
        let piece = pieces[i].as_str();
        assert(all.take(i + 1).drop_last() =~= all.take(i as int));
        assert(all.take(i + 1).last() == piece@);
        if !(piece.unicode_len() == 0 || (!v && is_here(piece) && (with_root || i > 0))) {
            list.push(piece.to_owned());
            proof {
                assert(views(list@) =~= views(list0).push(piece@));
                assert(v ==> views(list@) =~= lead + filled(all.take(i + 1)));
                assert(!v ==> views(list@) =~= lead + kept(all.take(i + 1), with_root));
            }
        }
        i = i + 1;
    }
    assert(all.take(all.len() as int) =~= all);
    list
}

/// How a prefix or a root is written.
fn lead_string(style: PathStyle, part: &str) -> (text: String)
    requires
        is_lead(style, part@),
    ensures
        text@ == lead_text(style, part@),
{
    if part.unicode_len() > 1 {
        let letters = chars(part);
        let text = text_of(&letters, 1, letters.len());
        assert(text@ =~= part@.skip(1));
        text
    } else {
        let mut text = String::new();
        text.push('/');
        assert(text@ =~= seq!['/']);
        text
    }
}

/// Writes the path with the parts `from..` of `list`.
pub fn render_from(style: PathStyle, list: &[String], from: usize) -> (text: String)
    requires
        from <= list@.len(),
    ensures
        text@ == render(style, views(list@).skip(from as int)),
{
    let ghost p = views(list@).skip(from as int);
    proof {
        reveal_strlit("/");
        assert("/"@ =~= seq!['/']);
        reveal_strlit("\\");
        assert("\\"@ =~= seq!['\\']);
    }
    let n = list.len();
    let mut at: usize = from;
    assert(forall|i: int| 0 <= i < p.len() ==> p[i] == list@[from + i]@);
    if from < n && is_lead_text(style, list[from].as_str()) {
        at = from + 1;
        if at < n && is_lead_text(style, list[at].as_str()) {
            at = at + 1;
        }
    }
    assert(at - from == lead_count(style, p));
    assert(p.skip(at - from) =~= views(list@).skip(at as int));
    if at > from {
        let inner = skipped(list[from].as_str(), 1);
        if is_verbatim(style, &inner) {
            let mut text = text_of(&inner, 0, inner.len());
            assert(text@ =~= p[0].skip(1));
            if at - from == 2 {
                if is_verbatim_share(style, &inner) && scan(style, true, &inner, 8) == inner.len() {
                    text.push('\\');
                }
                text.push('\\');
                assert(text@ =~= p[0].skip(1) + verbatim_root(style, p[0]));
            } else {
                assert(text@ =~= p[0].skip(1) + Seq::<char>::empty());
            }
            let rest = join_from(list, at, "\\");
            text.append(rest.as_str());
            return text;
        }
    }
    let mut text = String::new();
    if at > from {
        text = lead_string(style, list[from].as_str());
        if at - from == 2 {
            let more = lead_string(style, list[from + 1].as_str());
            text.append(more.as_str());
        }
    }
    assert(text@ =~= leads_text(style, p, lead_count(style, p)));
    let rest = join_from(list, at, "/");
    text.append(rest.as_str());
    text
}

/// The shortest spelling of a path.
pub fn clean_path(style: PathStyle, text: &str) -> (shortest: String)
    ensures
        shortest@ == clean(style, text@),
{
    let letters = chars(text);
    if is_verbatim(style, &letters) {
        return text.to_owned();
    }
    let list = path_parts(style, text);
    let shortest = render_from(style, &list, 0);
    assert(views(list@).skip(0) =~= views(list@));
    shortest
}

/// The spelling of a path in cache keys.
pub fn normalize_for_key(style: PathStyle, text: &str) -> (key: String)
    ensures
        key@ == key_form(style, text@),
{
    let shortest = clean_path(style, text);
    match style {
        PathStyle::Unix => shortest,
        PathStyle::Windows => to_lower(shortest.as_str()),
    }
}

/// Whether the path is absolute.
pub fn is_absolute(style: PathStyle, text: &str) -> (yes: bool)
    ensures
        yes == absolute(style, text@),
{
    let letters = chars(text);
    let n = prefix_length(style, &letters);
    let slashed = slash_follows(style, &letters, n);
    match style {
        PathStyle::Unix => slashed,
        PathStyle::Windows => n > 0 && (slashed || !begins_with_drive(style, &letters)),
    }
}

/// Whether two parts are the same.
fn parts_agree(style: PathStyle, a: &str, b: &str) -> (yes: bool)
    ensures
        yes == same_part(style, a@, b@),
{
    same_text(a, b) || (is_drive_text(style, a) && is_drive_text(style, b) && same_ignoring_ascii_case(a, b))
}

/// Whether the path with parts `list` lies at or below the path with parts `root`.
fn list_under(style: PathStyle, list: &[String], root: &[String]) -> (yes: bool)
    ensures
        yes == parts_under(style, views(list@), views(root@)),
{
    if root.len() > list.len() {
        return false;
    }
    let mut i: usize = 0;
    while i < root.len()
        invariant
            i <= root@.len() <= list@.len(),
            forall|j: int| 0 <= j < i ==> same_part(style, #[trigger] views(list@)[j], views(root@)[j]),
        decreases root@.len() - i,
    {
        if !parts_agree(style, list[i].as_str(), root[i].as_str()) {
            assert(!same_part(style, views(list@)[i as int], views(root@)[i as int]));
            return false;
        }
        i = i + 1;
    }
    true
}

/// What is left of a path below `root`.
pub fn strip_root(style: PathStyle, text: &str, root: &str) -> (rest: Option<String>)
    ensures
        crate::text::opt_view(rest) == below(style, text@, root@),
{
    let list = path_parts(style, text);
    let root_list = path_parts(style, root);
    if list_under(style, &list, &root_list) {
        Some(render_from(style, &list, root_list.len()))
    } else {
        None
    }
}

/// Whether a path lies at or below `root`.
pub fn is_under(style: PathStyle, text: &str, root: &str) -> (yes: bool)
    ensures
        yes == under(style, text@, root@),
{
    let list = path_parts(style, text);
    let root_list = path_parts(style, root);
    list_under(style, &list, &root_list)
}

/// Whether two texts write the same path.
pub fn same_path(style: PathStyle, a: &str, b: &str) -> (yes: bool)
    ensures
        yes == same(style, a@, b@),
{
    let left = path_parts(style, a);
    let right = path_parts(style, b);
    left.len() == right.len() && list_under(style, &left, &right)
}

/// The parts of a verbatim path when one more part is seen from it.
fn step(style: PathStyle, p: &mut Vec<String>, part: &str)
    requires
        old(p)@.len() > 0,
        is_prefix_part(style, views(old(p)@)[0]),
    ensures
        views(final(p)@) == stepped(style, views(old(p)@), part@),
        final(p)@.len() > 0,
        views(final(p)@)[0] == views(old(p)@)[0],
{
    let ghost before = views(p@);
    let root = root_string(style);
    if same_text(part, root.as_str()) {
        p.truncate(1);
        assert(views(p@) =~= before.take(1));
        p.push(root);
        assert(views(p@) =~= before.take(1).push(part@));
    } else if is_here(part) {
    } else if is_up(part) {
        let n = p.len();
        assert(before.last() == p@[n - 1]@);
        if is_name_text(style, p[n - 1].as_str()) {
            p.pop();
            assert(views(p@) =~= before.drop_last());
        }
    } else {
        p.push(part.to_owned());
        assert(views(p@) =~= before.push(part@));
    }
}

/// `name`, which has no prefix, as seen from a verbatim directory.
fn join_verbatim(style: PathStyle, dir: &str, name: &str) -> (path: String)
    requires
        verbatim(style, dir@),
    ensures
        path@ == walked_text(style, walked(style, parts(style, dir@), parts(style, name@))),
{
    let list = path_parts(style, name);
    let mut p = path_parts(style, dir);
    let ghost start = views(p@);
    let ghost all = views(list@);
    proof {
        lemma_verbatim_prefix(style, dir@);
        assert(leads(style, dir@).len() > 0);
        assert(start.len() == p@.len());
        assert(start[0] == leads(style, dir@)[0]);
        assert(all.take(0) =~= Seq::<Seq<char>>::empty());
    }
    let mut i: usize = 0;
    while i < list.len()
        invariant
            i <= list@.len(),
            all == views(list@),
            p@.len() > 0,
            is_prefix_part(style, views(p@)[0]),
            views(p@) == walked(style, start, all.take(i as int)),
        decreases list@.len() - i,
    {
        assert(all.take(i + 1).drop_last() =~= all.take(i as int));
        assert(all.take(i + 1).last() == list@[i as int]@);
        step(style, &mut p, list[i].as_str());
        i = i + 1;
    }
    assert(all.take(all.len() as int) =~= all);
    let ghost q = views(p@);
    proof {
        reveal_strlit("\\");
        assert("\\"@ =~= seq!['\\']);
    }
    let first = skipped(p[0].as_str(), 1);
    let mut path = text_of(&first, 0, first.len());
    assert(path@ =~= q[0].skip(1));
    let mut at: usize = 1;
    if p.len() > 1 {
        path.push('\\');
        assert(path@ =~= q[0].skip(1) + seq!['\\']);
        if is_lead_text(style, p[1].as_str()) {
            at = 2;
        }
    } else {
        assert(path@ =~= q[0].skip(1) + Seq::<char>::empty());
    }
    let rest = join_from(&p, at, "\\");
    path.append(rest.as_str());
    path
}

/// `name` as seen from the directory `dir`.
pub fn join(style: PathStyle, dir: &str, name: &str) -> (path: String)
    ensures
        path@ == joined_path(style, dir@, name@),
{
    let letters = chars(name);
    let above = chars(dir);
    let n = above.len();
    let prefix = prefix_length(style, &letters);
    if prefix > 0 {
        return name.to_owned();
    }
    if is_verbatim(style, &above) && letters.len() > 0 {
        return join_verbatim(style, dir, name);
    }
    if slash_follows(style, &letters, prefix) {
        let k = prefix_length(style, &above);
        let mut path = text_of(&above, 0, k);
        assert(path@ =~= dir@.take(k as int));
        path.append(name);
        return path;
    }
    let mut path = dir.to_owned();
    if !(n == 0 || separates(style, above[n - 1]) || (n == 2 && begins_with_drive(style, &above))) {
        match style {
            PathStyle::Unix => path.push('/'),
            PathStyle::Windows => path.push('\\'),
        }
        assert(path@ =~= dir@ + seq![main_sep(style)]);
    }
    path.append(name);
    path
}

/// `name` itself where it is absolute, else `name` as seen from `dir`.
pub fn resolve(style: PathStyle, dir: &str, name: &str) -> (path: String)
    ensures
        path@ == resolved(style, dir@, name@),
{
    if is_absolute(style, name) {
        name.to_owned()
    } else {
        join(style, dir, name)
    }
}

/// The last component, where it names something.
pub fn file_name(style: PathStyle, text: &str) -> (name: Option<String>)
    ensures
        crate::text::opt_view(name) == name_of(style, text@),
{
    let list = path_parts(style, text);
    if list.len() == 0 {
        return None;
    }
    let last = list[list.len() - 1].as_str();
    assert(views(list@).last() == last@);
    if is_name_text(style, last) {
        Some(last.to_owned())
    } else {
        None
    }
}

/// Where the extension of a file name begins.
fn dot_position(letters: &[char]) -> (at: usize)
    ensures
        at == dot_at(letters@),
        at == 0 || at < letters@.len(),
{
    let mut i: usize = letters.len();
    while i > 0 && letters[i - 1] != '.'
        invariant
            i <= letters@.len(),
            forall|j: int| i <= j < letters@.len() ==> letters@[j] != '.',
        decreases i,
    {
        i = i - 1;
    }
    proof {
        crate::text::lemma_last_at(letters@, '.', i - 1);
    }
    if i == 0 {
        0
    } else {
        i - 1
    }
}

/// The file name without its extension.
pub fn file_stem(style: PathStyle, text: &str) -> (stem: Option<String>)
    ensures
        crate::text::opt_view(stem) == stem_of(style, text@),
{
    match file_name(style, text) {
        Some(name) => {
            let letters = chars(name.as_str());
            let at = dot_position(&letters);
            if at == 0 {
                Some(name)
            } else {
                let stem = text_of(&letters, 0, at);
                assert(stem@ =~= name@.take(at as int));
                Some(stem)
            }
        },
        None => None,
    }
}

/// The extension of the file name, without its dot.
pub fn extension(style: PathStyle, text: &str) -> (ext: Option<String>)
    ensures
        crate::text::opt_view(ext) == extension_of(style, text@),
{
    match file_name(style, text) {
        Some(name) => {
            let letters = chars(name.as_str());
            let n = letters.len();
            let at = dot_position(&letters);
            if at == 0 {
                None
            } else {
                let ext = text_of(&letters, at + 1, n);
                assert(ext@ =~= name@.skip(at + 1));
                Some(ext)
            }
        },
        None => None,
    }
}

// ── Ancestors ───────────────────────────────────────────────────────────

/// The path itself, its parent, and so on up to the root, or to the empty path.
pub open spec fn ancestors_of(style: PathStyle, s: Seq<char>) -> Seq<Seq<char>> {
    let p = parts(style, s);
    Seq::new((p.len() + 1 - lead_count(style, p)) as nat, |i: int| render(style, p.take(p.len() - i)))
}

/// The path itself, its parent, and so on.
pub fn ancestors(style: PathStyle, text: &str) -> (list: Vec<String>)
    ensures
        views(list@) == ancestors_of(style, text@),
{
    let mut rest = path_parts(style, text);
    let ghost p = views(rest@);
    assert(forall|i: int| 0 <= i < p.len() ==> p[i] == rest@[i]@);
    let top: usize = if rest.len() == 0 || !is_lead_text(style, rest[0].as_str()) {
        0
    } else if rest.len() == 1 || !is_lead_text(style, rest[1].as_str()) {
        1
    } else {
        2
    };
    let ghost all = ancestors_of(style, text@);
    let mut list: Vec<String> = Vec::new();
    let first = render_from(style, &rest, 0);
    list.push(first);
    assert(p.skip(0) =~= p && p.take(p.len() as int) =~= p);
    while rest.len() > top
        invariant
            p == parts(style, text@),
            top == lead_count(style, p),
            top <= rest@.len() <= p.len(),
            views(rest@) == p.take(rest@.len() as int),
            all == ancestors_of(style, text@),
            list@.len() == p.len() - rest@.len() + 1,
            forall|i: int| 0 <= i < list@.len() ==> (#[trigger] list@[i])@ == all[i],
        decreases rest@.len(),
    {
        rest.pop();
        proof {
            assert(views(rest@) =~= p.take(rest@.len() as int));
            assert(views(rest@).skip(0) =~= views(rest@));
        }
        list.push(render_from(style, &rest, 0));
    }
    assert(views(list@) =~= all);
    list
}

// ── Order ───────────────────────────────────────────────────────────────

/// Where a kind of part stands: prefixes, then roots, then `.`, then `..`, then names.
pub open spec fn part_rank(style: PathStyle, part: Seq<char>) -> char {
    if is_prefix_part(style, part) {
        '0'
    } else if is_lead(style, part) {
        '1'
    } else if part == here() {
        '2'
    } else if part == up() {
        '3'
    } else {
        '4'
    }
}

/// The parts of the path `s`, each with its rank in front.
pub open spec fn ranked(style: PathStyle, s: Seq<char>) -> Seq<Seq<char>> {
    let p = parts(style, s);
    Seq::new(p.len(), |i: int| seq![part_rank(style, p[i])] + p[i])
}

/// The order of ranked paths: part by part.
pub open spec fn parts_le(a: Seq<Seq<char>>, b: Seq<Seq<char>>) -> bool
    decreases a.len(),
{
    if a.len() == 0 {
        true
    } else if b.len() == 0 {
        false
    } else if a[0] == b[0] {
        parts_le(a.drop_first(), b.drop_first())
    } else {
        lex_le(a[0], b[0])
    }
}

/// Of two part lists one is not after the other.
pub proof fn lemma_parts_total(a: Seq<Seq<char>>, b: Seq<Seq<char>>)
    ensures
        parts_le(a, b) || parts_le(b, a),
    decreases a.len(),
{
    if a.len() > 0 && b.len() > 0 {
        if a[0] == b[0] {
            lemma_parts_total(a.drop_first(), b.drop_first());
        } else {
            lemma_lex_total(a[0], b[0]);
        }
    }
}

/// The order of part lists is transitive.
pub proof fn lemma_parts_transitive(a: Seq<Seq<char>>, b: Seq<Seq<char>>, c: Seq<Seq<char>>)
    requires
        parts_le(a, b),
        parts_le(b, c),
    ensures
        parts_le(a, c),
    decreases a.len(),
{
    if a.len() > 0 && b.len() > 0 && c.len() > 0 {
        if a[0] == b[0] && b[0] == c[0] {
            lemma_parts_transitive(a.drop_first(), b.drop_first(), c.drop_first());
        } else if a[0] != b[0] && b[0] != c[0] {
            lemma_lex_transitive(a[0], b[0], c[0]);
            if a[0] == c[0] {
                lemma_lex_antisymmetric(a[0], b[0]);
            }
        }
    }
}

/// Two part lists that are each not after the other are the same.
pub proof fn lemma_parts_antisymmetric(a: Seq<Seq<char>>, b: Seq<Seq<char>>)
    requires
        parts_le(a, b),
        parts_le(b, a),
    ensures
        a == b,
    decreases a.len(),
{
    if a.len() > 0 && b.len() > 0 {
        if a[0] == b[0] {
            lemma_parts_antisymmetric(a.drop_first(), b.drop_first());
            assert(a =~= seq![a[0]] + a.drop_first());
            assert(b =~= seq![b[0]] + b.drop_first());
        } else {
            lemma_lex_antisymmetric(a[0], b[0]);
        }
    } else {
        assert(a =~= b);
    }
}

/// The parts of a path, each with its rank in front.
fn ranked_parts(style: PathStyle, text: &str) -> (list: Vec<String>)
    ensures
        views(list@) == ranked(style, text@),
{
    let p = path_parts(style, text);
    let ghost all = parts(style, text@);
    let mut list: Vec<String> = Vec::new();
    let mut i: usize = 0;
    while i < p.len()
        invariant
            i <= p@.len(),
            all == views(p@),
            list@.len() == i,
            forall|j: int| 0 <= j < i ==> (#[trigger] list@[j])@ == seq![part_rank(style, all[j])] + all[j],
        decreases p@.len() - i,
    {
        let part = p[i].as_str();
        let mut item = String::new();
        if is_lead_text(style, part) {
            if part.unicode_len() > 1 {
                item.push('0');
            } else {
                item.push('1');
            }
        } else if is_here(part) {
            item.push('2');
        } else if is_up(part) {
            item.push('3');
        } else {
            item.push('4');
        }
        assert(item@ =~= seq![part_rank(style, part@)]);
        item.append(part);
        list.push(item);
        i = i + 1;
    }
    assert(views(list@) =~= ranked(style, text@));
    list
}

/// Decides the order of paths.
fn list_le(a: &[String], b: &[String]) -> (yes: bool)
    ensures
        yes == parts_le(views(a@), views(b@)),
{
    let ghost left = views(a@);
    let ghost right = views(b@);
    let mut i: usize = 0;
    assert(left.skip(0) =~= left && right.skip(0) =~= right);
    while i < a.len() && i < b.len() && same_text(a[i].as_str(), b[i].as_str())
        invariant
            left == views(a@),
            right == views(b@),
            i <= a@.len(),
            i <= b@.len(),
            parts_le(left, right) == parts_le(left.skip(i as int), right.skip(i as int)),
        decreases a@.len() - i,
    {
        assert(left.skip(i as int).drop_first() =~= left.skip(i + 1));
        assert(right.skip(i as int).drop_first() =~= right.skip(i + 1));
        i = i + 1;
    }
    if i == a.len() {
        true
    } else if i == b.len() {
        false
    } else {
        text_le(a[i].as_str(), b[i].as_str())
    }
}

// ── Normalized paths ────────────────────────────────────────────────────

/// A path in its shortest spelling.
#[derive(Debug, PartialEq, Eq, PartialOrd, Ord, Hash)]
pub struct NormalizedPath {
    text: String,
}

impl View for NormalizedPath {
    type V = Seq<char>;

    closed spec fn view(&self) -> Seq<char> {
        self.text@
    }
}

impl NormalizedPath {
    /// The path that `text` writes.
    pub fn new(style: PathStyle, text: &str) -> (path: NormalizedPath)
        ensures
            path@ == clean(style, text@),
    {
        NormalizedPath { text: clean_path(style, text) }
    }

    /// The path's text.
    pub fn as_str(&self) -> (text: &str)
        ensures
            text@ == self@,
    {
        self.text.as_str()
    }
}

impl Clone for NormalizedPath {
    fn clone(&self) -> (copy: NormalizedPath)
        ensures
            copy@ == self@,
    {
        NormalizedPath { text: self.text.clone() }
    }
}

/// The texts of a list of paths.
pub open spec fn path_views(list: Seq<NormalizedPath>) -> Seq<Seq<char>> {
    Seq::new(list.len(), |i: int| list[i]@)
}

/// The text of an optional path.
pub open spec fn opt_path_view(path: Option<NormalizedPath>) -> Option<Seq<char>> {
    match path {
        Some(p) => Some(p@),
        None => None,
    }
}

/// Copies of the paths of `list`.
pub fn copy_paths(list: &[NormalizedPath]) -> (copy: Vec<NormalizedPath>)
    ensures
        path_views(copy@) == path_views(list@),
{
    let mut copy: Vec<NormalizedPath> = Vec::new();
    let mut i: usize = 0;
    while i < list.len()
        invariant
            i <= list@.len(),
            copy@.len() == i,
            forall|j: int| 0 <= j < i ==> (#[trigger] copy@[j])@ == list@[j]@,
        decreases list@.len() - i,
    {
        copy.push(list[i].clone());
        i = i + 1;
    }
    assert(path_views(copy@) =~= path_views(list@));
    copy
}

/// Whether `list` holds this path.
pub fn contains_path(list: &[NormalizedPath], path: &NormalizedPath) -> (found: bool)
    ensures
        found == path_views(list@).contains(path@),
{
    let mut i: usize = 0;
    while i < list.len()
        invariant
            i <= list@.len(),
            forall|j: int| 0 <= j < i ==> path_views(list@)[j] != path@,
        decreases list@.len() - i,
    {
        if same_text(list[i].as_str(), path.as_str()) {
            assert(path_views(list@)[i as int] == path@);
            return true;
        }
        i = i + 1;
    }
    false
}

/// The order of paths: part by part; one spelling before another where the parts are the same.
pub open spec fn path_le(style: PathStyle, a: Seq<char>, b: Seq<char>) -> bool {
    if ranked(style, a) == ranked(style, b) {
        lex_le(a, b)
    } else {
        parts_le(ranked(style, a), ranked(style, b))
    }
}

/// The order of paths, as a relation.
pub open spec fn path_order(style: PathStyle) -> spec_fn(Seq<char>, Seq<char>) -> bool {
    |a: Seq<char>, b: Seq<char>| path_le(style, a, b)
}

/// The order of paths is transitive.
proof fn lemma_path_transitive(style: PathStyle, a: Seq<char>, b: Seq<char>, c: Seq<char>)
    requires
        path_le(style, a, b),
        path_le(style, b, c),
    ensures
        path_le(style, a, c),
{
    let (x, y, z) = (ranked(style, a), ranked(style, b), ranked(style, c));
    if x == y && y == z {
        lemma_lex_transitive(a, b, c);
    } else if x != y && y != z {
        lemma_parts_transitive(x, y, z);
        if x == z {
            lemma_parts_antisymmetric(x, y);
        }
    }
}

/// The order of paths is a total order.
pub proof fn lemma_path_order(style: PathStyle)
    ensures
        total_ordering(path_order(style)),
{
    let leq = path_order(style);
    assert(reflexive(leq)) by {
        assert forall|x: Seq<char>| #[trigger] leq(x, x) by {
            lemma_lex_total(x, x);
        }
    }
    assert(antisymmetric(leq)) by {
        assert forall|x: Seq<char>, y: Seq<char>| #[trigger] leq(x, y) && #[trigger] leq(y, x) implies x == y by {
            if ranked(style, x) == ranked(style, y) {
                lemma_lex_antisymmetric(x, y);
            } else {
                lemma_parts_antisymmetric(ranked(style, x), ranked(style, y));
            }
        }
    }
    assert(transitive(leq)) by {
        assert forall|x: Seq<char>, y: Seq<char>, z: Seq<char>| #[trigger] leq(x, y) && #[trigger] leq(
            y,
            z,
        ) implies leq(x, z) by {
            lemma_path_transitive(style, x, y, z);
        }
    }
    assert(strongly_connected(leq)) by {
        assert forall|x: Seq<char>, y: Seq<char>| #[trigger] leq(x, y) || #[trigger] leq(y, x) by {
            lemma_lex_total(x, y);
            lemma_parts_total(ranked(style, x), ranked(style, y));
        }
    }
}

/// A path as it is sorted: beside its ranked parts.
struct SortablePath {
    path: NormalizedPath,
    parts: Vec<String>,
}

impl SortablePath {
    /// What the order goes by: the parts, then the text.
    closed spec fn rank(&self) -> (Seq<Seq<char>>, Seq<char>) {
        (views(self.parts@), self.path@)
    }
}

impl Ranked for SortablePath {
    closed spec fn before(&self, other: &SortablePath) -> bool {
        if self.rank().0 == other.rank().0 {
            lex_le(self.rank().1, other.rank().1)
        } else {
            parts_le(self.rank().0, other.rank().0)
        }
    }

    fn is_before(&self, other: &SortablePath) -> (yes: bool) {
        if list_le(&self.parts, &other.parts) {
            if list_le(&other.parts, &self.parts) {
                proof {
                    lemma_parts_antisymmetric(views(self.parts@), views(other.parts@));
                }
                text_le(self.path.as_str(), other.path.as_str())
            } else {
                true
            }
        } else {
            proof {
                lemma_parts_total(views(self.parts@), views(self.parts@));
            }
            false
        }
    }

    proof fn lemma_total(&self, other: &SortablePath) {
        lemma_parts_total(views(self.parts@), views(other.parts@));
        lemma_lex_total(self.path@, other.path@);
    }

    proof fn lemma_transitive(&self, middle: &SortablePath, other: &SortablePath) {
        let (x, y, z) = (self.rank().0, middle.rank().0, other.rank().0);
        if x == y && y == z {
            lemma_lex_transitive(self.path@, middle.path@, other.path@);
        } else if x != y && y != z {
            lemma_parts_transitive(x, y, z);
            if x == z {
                lemma_parts_antisymmetric(x, y);
            }
        }
    }
}

/// Sorts paths.
pub fn sort_paths(style: PathStyle, list: Vec<NormalizedPath>) -> (sorted: Vec<NormalizedPath>)
    ensures
        path_views(sorted@) == sorted_of(path_views(list@), path_order(style)),
{
    let ghost all = path_views(list@);
    let mut rest = list;
    let mut items: Vec<SortablePath> = Vec::new();
    let ghost name = |item: SortablePath| item.path@;
    proof {
        vstd::seq_lib::lemma_multiset_commutative(path_views(rest@), items@.map_values(name));
        assert(path_views(rest@) + items@.map_values(name) =~= all);
    }
    while rest.len() > 0
        invariant
            name == (|item: SortablePath| item.path@),
            path_views(rest@).to_multiset().add(items@.map_values(name).to_multiset()) =~= all.to_multiset(),
            forall|i: int| 0 <= i < items@.len() ==> views((#[trigger] items@[i]).parts@) == ranked(style, items@[i].path@),
        decreases rest@.len(),
    {
        let ghost rest0 = rest@;
        let ghost items0 = items@;
        match rest.pop() {
            Some(path) => {
                let list = ranked_parts(style, path.as_str());
                items.push(SortablePath { path: path, parts: list });
                proof {
                    assert(path_views(rest0) =~= path_views(rest@).push(path@));
                    assert(items@.map_values(name) =~= items0.map_values(name).push(path@));
                    vstd::seq_lib::to_multiset_build(path_views(rest@), path@);
                    vstd::seq_lib::to_multiset_build(items0.map_values(name), path@);
                }
            },
            None => {},
        }
    }
    proof {
        path_views(rest@).to_multiset_ensures();
        assert(path_views(rest@).to_multiset() =~= vstd::multiset::Multiset::<Seq<char>>::empty());
        assert(items@.map_values(name).to_multiset() =~= all.to_multiset());
    }
    let ghost items0 = items@;
    let mut items = sort(items);
    proof {
        lemma_same_images(items0, items@, name);
        assert forall|i: int| 0 <= i < items@.len() implies views((#[trigger] items@[i]).parts@) == ranked(
            style,
            items@[i].path@,
        ) by {
            lemma_same_items(items0, items@, items@[i]);
            assert(items@.contains(items@[i]));
            let k = items0.index_of(items@[i]);
            assert(items0[k] == items@[i]);
        }
    }
    let ghost order = items@;
    let mut sorted: Vec<NormalizedPath> = Vec::new();
    while items.len() > 0
        invariant
            name == (|item: SortablePath| item.path@),
            items@.len() + sorted@.len() == order.len(),
            items@ == order.skip(sorted@.len() as int),
            path_views(sorted@) == order.map_values(name).take(sorted@.len() as int),
        decreases items@.len(),
    {
        let ghost sorted0 = sorted@;
        let item = items.remove(0);
        sorted.push(item.path);
        proof {
            assert(items@ =~= order.skip(sorted@.len() as int));
            assert(path_views(sorted@) =~= path_views(sorted0).push(item.path@));
            assert(item == order[sorted0.len() as int]);
            assert(path_views(sorted@) =~= order.map_values(name).take(sorted@.len() as int));
        }
    }
    proof {
        assert(path_views(sorted@) =~= order.map_values(name));
        lemma_path_order(style);
        assert(sorted_by(path_views(sorted@), path_order(style))) by {
            assert forall|i: int, j: int| 0 <= i < j < path_views(sorted@).len() implies #[trigger] path_order(style)(
                path_views(sorted@)[i],
                path_views(sorted@)[j],
            ) by {
                assert(order[i].before(&order[j]));
            }
        }
        lemma_sorted_is(all, path_views(sorted@), path_order(style));
    }
    sorted
}

} // verus!
