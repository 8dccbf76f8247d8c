//! Text primitives: searching, splitting, trimming, joining and ordering of character
//! sequences, each executable function proved equal to a specification on `Seq<char>`.

use vstd::prelude::*;

verus! {

/// `String::push` appends one character.
pub assume_specification[ String::push ](text: &mut String, c: char)
    ensures
        final(text)@ == old(text)@.push(c),
;

/// The texts of a list of strings.
pub open spec fn views(list: Seq<String>) -> Seq<Seq<char>> {
    Seq::new(list.len(), |i: int| list[i]@)
}

/// The texts of a list of string pairs.
pub open spec fn pair_views(list: Seq<(String, String)>) -> Seq<(Seq<char>, Seq<char>)> {
    Seq::new(list.len(), |i: int| (list[i].0@, list[i].1@))
}

/// The text of an optional string.
pub open spec fn opt_view(text: Option<String>) -> Option<Seq<char>> {
    match text {
        Some(t) => Some(t@),
        None => None,
    }
}

// ── Conversions ─────────────────────────────────────────────────────────

/// The characters of `text`.
pub fn chars(text: &str) -> (list: Vec<char>)
    ensures
        list@ == text@,
{
    let mut list: Vec<char> = Vec::new();
    for c in it: text.chars()
        invariant
            it.seq() == text@,
            list@ == text@.take(it.index() as int),
    {
        list.push(c);
        assert(text@.take(it.index() + 1) =~= text@.take(it.index() as int).push(c));
    }
    assert(text@.take(text@.len() as int) =~= text@);
    list
}

/// The text made of the characters `from..to` of `list`.
pub fn text_of(list: &[char], from: usize, to: usize) -> (text: String)
    requires
        from <= to <= list@.len(),
    ensures
        text@ == list@.subrange(from as int, to as int),
{
    let mut text = String::new();
    let mut i: usize = from;
    assert(list@.subrange(from as int, from as int) =~= Seq::<char>::empty());
    while i < to
        invariant
            from <= i <= to <= list@.len(),
            text@ == list@.subrange(from as int, i as int),
        decreases to - i,
    {
        text.push(list[i]);
        assert(list@.subrange(from as int, i + 1) =~= list@.subrange(from as int, i as int).push(list@[i as int]));
        i = i + 1;
    }
    text
}

/// Whether two texts are the same.
pub fn same_text(a: &str, b: &str) -> (same: bool)
    ensures
        same == (a@ == b@),
{
    a.to_owned() == b.to_owned()
}

/// The two texts one after the other.
pub fn concat2(a: &str, b: &str) -> (text: String)
    ensures
        text@ == a@ + b@,
{
    let mut text = a.to_owned();
    text.append(b);
    text
}

/// The three texts one after the other.
pub fn concat3(a: &str, b: &str, c: &str) -> (text: String)
    ensures
        text@ == a@ + b@ + c@,
{
    let mut text = a.to_owned();
    text.append(b);
    text.append(c);
    text
}

/// Copies of the strings of `list`.
pub fn copy_list(list: &[String]) -> (copy: Vec<String>)
    ensures
        views(copy@) == views(list@),
{
    let mut copy: Vec<String> = Vec::new();
    let mut i: usize = 0;
    while i < list.len()
        invariant
            i <= list@.len(),
            copy@.len() == i,
            forall|j: int| 0 <= j < i ==> (#[trigger] copy@[j])@ == list@[j]@,
        decreases list@.len() - i,
    {
        copy.push(list[i].clone());
        i = i + 1;
    }
    assert(views(copy@) =~= views(list@));
    copy
}

/// Whether `list` holds a string with this text.
pub fn contains_text(list: &[String], text: &str) -> (found: bool)
    ensures
        found == views(list@).contains(text@),
{
    let mut i: usize = 0;
    while i < list.len()
        invariant
            i <= list@.len(),
            forall|j: int| 0 <= j < i ==> (#[trigger] list@[j])@ != text@,
        decreases list@.len() - i,
    {
        if same_text(list[i].as_str(), text) {
            assert(views(list@)[i as int] == text@);
            return true;
        }
        i = i + 1;
    }
    assert forall|j: int| 0 <= j < views(list@).len() implies views(list@)[j] != text@ by {
        assert(list@[j]@ != text@);
    }
    false
}

// ── Searching ───────────────────────────────────────────────────────────

/// The position of the first `c` in `s`, or the length of `s` where there is none.
pub open spec fn first_at(s: Seq<char>, c: char) -> int
    decreases s.len(),
{
    if s.len() == 0 || s[0] == c {
        0
    } else {
        1 + first_at(s.drop_first(), c)
    }
}

/// The position of the last `c` in `s`, or -1 where there is none.
pub open spec fn last_at(s: Seq<char>, c: char) -> int
    decreases s.len(),
{
    if s.len() == 0 {
        -1
    } else if s.last() == c {
        s.len() - 1
    } else {
        last_at(s.drop_last(), c)
    }
}

/// `first_at` is the only position with `c` there and none before.
pub proof fn lemma_first_at(s: Seq<char>, c: char, i: int)
    requires
        0 <= i <= s.len(),
        forall|j: int| 0 <= j < i ==> s[j] != c,
        i == s.len() || s[i] == c,
    ensures
        first_at(s, c) == i,
    decreases s.len(),
{
    if s.len() > 0 && s[0] != c {
        assert forall|j: int| 0 <= j < i - 1 implies s.drop_first()[j] != c by {
            assert(s[j + 1] != c);
        }
        lemma_first_at(s.drop_first(), c, i - 1);
    }
}

/// `last_at` is the only position with `c` there and none after.
pub proof fn lemma_last_at(s: Seq<char>, c: char, i: int)
    requires
        -1 <= i < s.len(),
        forall|j: int| i < j < s.len() ==> s[j] != c,
        i == -1 || s[i] == c,
    ensures
        last_at(s, c) == i,
    decreases s.len(),
{
    if s.len() > 0 && s.last() != c {
        assert forall|j: int| i < j < s.drop_last().len() implies s.drop_last()[j] != c by {
            assert(s[j] != c);
        }
        lemma_last_at(s.drop_last(), c, i);
    }
}

/// The position of the first `c` at or after `from`, or the length of `list`.
pub fn find_from(list: &[char], from: usize, c: char) -> (at: usize)
    requires
        from <= list@.len(),
    ensures
        from <= at <= list@.len(),
        at == from + first_at(list@.skip(from as int), c),
{
    let mut i: usize = from;
    while i < list.len() && list[i] != c
        invariant
            from <= i <= list@.len(),
            forall|j: int| from <= j < i ==> list@[j] != c,
        decreases list@.len() - i,
    {
        i = i + 1;
    }
    proof {
        assert forall|j: int| 0 <= j < i - from implies list@.skip(from as int)[j] != c by {
            assert(list@[from + j] != c);
        }
        lemma_first_at(list@.skip(from as int), c, i - from);
    }
    i
}

/// `str::split_once`: what stands before and after the first `c`.
pub open spec fn split_once_at(s: Seq<char>, c: char) -> Option<(Seq<char>, Seq<char>)> {
    if first_at(s, c) < s.len() {
        Some((s.take(first_at(s, c)), s.skip(first_at(s, c) + 1)))
    } else {
        None
    }
}

/// The texts of an optional pair of strings.
pub open spec fn opt_pair_view(pair: Option<(String, String)>) -> Option<(Seq<char>, Seq<char>)> {
    match pair {
        Some(p) => Some((p.0@, p.1@)),
        None => None,
    }
}

/// Splits `text` at the first `c`.
pub fn split_once(text: &str, c: char) -> (halves: Option<(String, String)>)
    ensures
        opt_pair_view(halves) == split_once_at(text@, c),
{
    let list = chars(text);
    let at = find_from(&list, 0, c);
    assert(list@.skip(0) =~= list@);
    if at == list.len() {
        return None;
    }
    let before = text_of(&list, 0, at);
    let after = text_of(&list, at + 1, list.len());
    proof {
        assert(before@ =~= text@.take(at as int));
        assert(after@ =~= text@.skip(at + 1));
    }
    Some((before, after))
}

/// `str::strip_prefix`.
pub open spec fn without_prefix(s: Seq<char>, prefix: Seq<char>) -> Option<Seq<char>> {
    if prefix.is_prefix_of(s) {
        Some(s.skip(prefix.len() as int))
    } else {
        None
    }
}

/// `str::strip_suffix`.
pub open spec fn without_suffix(s: Seq<char>, suffix: Seq<char>) -> Option<Seq<char>> {
    if suffix.is_suffix_of(s) {
        Some(s.take(s.len() - suffix.len()))
    } else {
        None
    }
}

/// Whether `text` begins with `prefix`.
pub fn starts_with(text: &str, prefix: &str) -> (yes: bool)
    ensures
        yes == prefix@.is_prefix_of(text@),
{
    let n = prefix.unicode_len();
    if n > text.unicode_len() {
        return false;
    }
    let head = text.substring_char(0, n);
    assert(head@ =~= text@.take(n as int));
    same_text(head, prefix)
}

/// What follows `prefix` in `text`.
pub fn strip_prefix(text: &str, prefix: &str) -> (rest: Option<String>)
    ensures
        opt_view(rest) == without_prefix(text@, prefix@),
{
    if !starts_with(text, prefix) {
        return None;
    }
    let rest = text.substring_char(prefix.unicode_len(), text.unicode_len());
    assert(rest@ =~= text@.skip(prefix@.len() as int));
    Some(rest.to_owned())
}

/// What stands before `suffix` in `text`.
pub fn strip_suffix(text: &str, suffix: &str) -> (rest: Option<String>)
    ensures
        opt_view(rest) == without_suffix(text@, suffix@),
{
    let n = text.unicode_len();
    let m = suffix.unicode_len();
    if m > n {
        return None;
    }
    let tail = text.substring_char(n - m, n);
    assert(tail@ =~= text@.skip(n - m));
    if !same_text(tail, suffix) {
        return None;
    }
    let rest = text.substring_char(0, n - m);
    assert(rest@ =~= text@.take(n - m));
    Some(rest.to_owned())
}

// ── Letter case and white space ─────────────────────────────────────────

/// The ASCII lower-case form of `c`: `A` to `Z` become `a` to `z`.
pub open spec fn ascii_lower(c: char) -> char {
    if 'A' <= c <= 'Z' {
        ((c as u32) + 32) as char
    } else {
        c
    }
}

/// `s` with every character in ASCII lower case.
pub open spec fn lower_ascii(s: Seq<char>) -> Seq<char> {
    Seq::new(s.len(), |i: int| ascii_lower(s[i]))
}

/// `char::to_ascii_lowercase`.
pub fn to_ascii_lower(c: char) -> (lower: char)
    ensures
        lower == ascii_lower(c),
{
    match c {
        'A' => 'a',
        'B' => 'b',
        'C' => 'c',
        'D' => 'd',
        'E' => 'e',
        'F' => 'f',
        'G' => 'g',
        'H' => 'h',
        'I' => 'i',
        'J' => 'j',
        'K' => 'k',
        'L' => 'l',
        'M' => 'm',
        'N' => 'n',
        'O' => 'o',
        'P' => 'p',
        'Q' => 'q',
        'R' => 'r',
        'S' => 's',
        'T' => 't',
        'U' => 'u',
        'V' => 'v',
        'W' => 'w',
        'X' => 'x',
        'Y' => 'y',
        'Z' => 'z',
        _ => c,
    }
}

/// `text` in ASCII lower case.
pub fn to_lower(text: &str) -> (lower: String)
    ensures
        lower@ == lower_ascii(text@),
{
    let mut lower = String::new();
    for c in it: text.chars()
        invariant
            it.seq() == text@,
            lower@ == lower_ascii(text@.take(it.index() as int)),
    {
        lower.push(to_ascii_lower(c));
        assert(lower_ascii(text@.take(it.index() + 1)) =~= lower_ascii(text@.take(it.index() as int)).push(ascii_lower(c)));
    }
    assert(text@.take(text@.len() as int) =~= text@);
    lower
}

/// `str::eq_ignore_ascii_case`.
pub fn same_ignoring_ascii_case(a: &str, b: &str) -> (same: bool)
    ensures
        same == (lower_ascii(a@) == lower_ascii(b@)),
{
    to_lower(a) == to_lower(b)
}

/// The characters with the Unicode property White_Space.
pub open spec fn is_white(c: char) -> bool {
    ||| '\u{9}' <= c <= '\u{d}'
    ||| c == ' '
    ||| c == '\u{85}'
    ||| c == '\u{a0}'
    ||| c == '\u{1680}'
    ||| '\u{2000}' <= c <= '\u{200a}'
    ||| c == '\u{2028}'
    ||| c == '\u{2029}'
    ||| c == '\u{202f}'
    ||| c == '\u{205f}'
    ||| c == '\u{3000}'
}

/// `char::is_whitespace`.
pub fn is_whitespace(c: char) -> (white: bool)
    ensures
        white == is_white(c),
{
    ('\u{9}' <= c && c <= '\u{d}') || c == ' ' || c == '\u{85}' || c == '\u{a0}' || c == '\u{1680}'
        || ('\u{2000}' <= c && c <= '\u{200a}') || c == '\u{2028}' || c == '\u{2029}' || c == '\u{202f}'
        || c == '\u{205f}' || c == '\u{3000}'
}

/// `s` without leading white space.
pub open spec fn trimmed_start(s: Seq<char>) -> Seq<char>
    decreases s.len(),
{
    if s.len() > 0 && is_white(s[0]) {
        trimmed_start(s.drop_first())
    } else {
        s
    }
}

/// `s` without trailing white space.
pub open spec fn trimmed_end(s: Seq<char>) -> Seq<char>
    decreases s.len(),
{
    if s.len() > 0 && is_white(s.last()) {
        trimmed_end(s.drop_last())
    } else {
        s
    }
}

/// `str::trim`: `s` without leading and trailing white space.
pub open spec fn trimmed(s: Seq<char>) -> Seq<char> {
    trimmed_end(trimmed_start(s))
}

/// Removes leading and trailing white space.
pub fn trim(text: &str) -> (inner: String)
    ensures
        inner@ == trimmed(text@),
{
    let list = chars(text);
    let mut from: usize = 0;
    assert(list@.skip(0) =~= list@);
    while from < list.len() && is_whitespace(list[from])
        invariant
            from <= list@.len(),
            trimmed_start(list@) == trimmed_start(list@.skip(from as int)),
        decreases list@.len() - from,
    {
        assert(list@.skip(from as int).drop_first() =~= list@.skip(from + 1));
        from = from + 1;
    }
    let ghost middle = list@.skip(from as int);
    assert(trimmed_start(list@) == middle);
    let mut to: usize = list.len();
    assert(list@.subrange(from as int, to as int) =~= middle);
    while from < to && is_whitespace(list[to - 1])
        invariant
            from <= to <= list@.len(),
            trimmed_end(middle) == trimmed_end(list@.subrange(from as int, to as int)),
        decreases to,
    {
        assert(list@.subrange(from as int, to as int).drop_last() =~= list@.subrange(from as int, to - 1));
        to = to - 1;
    }
    text_of(&list, from, to)
}

// ── Splitting and joining ───────────────────────────────────────────────

/// The pieces of `s` between the characters that `is_sep` picks; always at least one piece.
pub open spec fn split(s: Seq<char>, is_sep: spec_fn(char) -> bool) -> Seq<Seq<char>>
    decreases s.len(),
{
    if s.len() == 0 {
        seq![Seq::<char>::empty()]
    } else {
        let pieces = split(s.drop_last(), is_sep);
        if is_sep(s.last()) {
            pieces.push(Seq::<char>::empty())
        } else {
            pieces.drop_last().push(pieces.last().push(s.last()))
        }
    }
}

/// `split` never comes back empty-handed.
pub proof fn lemma_split_nonempty(s: Seq<char>, is_sep: spec_fn(char) -> bool)
    ensures
        split(s, is_sep).len() > 0,
    decreases s.len(),
{
    if s.len() > 0 {
        lemma_split_nonempty(s.drop_last(), is_sep);
    }
}

/// No piece holds a separator.
pub proof fn lemma_split_pieces(s: Seq<char>, is_sep: spec_fn(char) -> bool)
    ensures
        forall|i: int, j: int|
            #![trigger split(s, is_sep)[i][j]]
            0 <= i < split(s, is_sep).len() && 0 <= j < split(s, is_sep)[i].len() ==> !is_sep(split(s, is_sep)[i][j]),
    decreases s.len(),
{
    if s.len() > 0 {
        lemma_split_pieces(s.drop_last(), is_sep);
        lemma_split_nonempty(s.drop_last(), is_sep);
        let before = split(s.drop_last(), is_sep);
        let now = split(s, is_sep);
        assert forall|i: int, j: int| 0 <= i < now.len() && 0 <= j < now[i].len() implies !is_sep(#[trigger] now[i][j]) by {
            if i < before.len() {
                if j < before[i].len() {
                    assert(now[i][j] == before[i][j]);
                }
            }
        }
    }
}

/// The predicate that picks `c` alone.
pub open spec fn only(c: char) -> spec_fn(char) -> bool {
    |x: char| x == c
}

/// The pieces of `s` between its `c`s.
pub open spec fn split_at_char(s: Seq<char>, c: char) -> Seq<Seq<char>> {
    split(s, only(c))
}

/// Splits `text` at every `c`.
pub fn split_char(text: &str, c: char) -> (pieces: Vec<String>)
    ensures
        views(pieces@) == split_at_char(text@, c),
{
    let ghost is_sep = only(c);
    let mut pieces: Vec<String> = Vec::new();
    let mut piece = String::new();
    assert(views(pieces@).push(piece@) =~= split(text@.take(0), is_sep));
    for x in it: text.chars()
        invariant
            it.seq() == text@,
            is_sep == only(c),
            views(pieces@).push(piece@) == split(text@.take(it.index() as int), is_sep),
    {
        let ghost before = text@.take(it.index() as int);
        let ghost now = text@.take(it.index() + 1);
        let ghost pieces0 = pieces@;
        let ghost piece0 = piece@;
        assert(now.drop_last() =~= before);
        assert(now.last() == x);
        if x == c {
            pieces.push(piece);
            piece = String::new();
            assert(views(pieces@) =~= views(pieces0).push(piece0));
            assert(views(pieces@).push(piece@) =~= split(now, is_sep));
        } else {
            piece.push(x);
            assert(views(pieces0).push(piece0).drop_last() =~= views(pieces0));
            assert(views(pieces@).push(piece@) =~= split(now, is_sep));
        }
    }
    assert(text@.take(text@.len() as int) =~= text@);
    let ghost pieces0 = pieces@;
    let ghost piece0 = piece@;
    pieces.push(piece);
    assert(views(pieces@) =~= views(pieces0).push(piece0));
    pieces
}

/// `parts` with `sep` between each two of them.
pub open spec fn joined(parts: Seq<Seq<char>>, sep: Seq<char>) -> Seq<char>
    decreases parts.len(),
{
    if parts.len() == 0 {
        Seq::empty()
    } else if parts.len() == 1 {
        parts[0]
    } else {
        joined(parts.drop_last(), sep) + sep + parts.last()
    }
}

/// Joins the strings `from..` of `parts` with `sep` between each two of them.
pub fn join_from(parts: &[String], from: usize, sep: &str) -> (text: String)
    requires
        from <= parts@.len(),
    ensures
        text@ == joined(views(parts@).skip(from as int), sep@),
{
    let ghost all = views(parts@).skip(from as int);
    let mut text = String::new();
    let mut i: usize = from;
    assert(all.take(0) =~= Seq::<Seq<char>>::empty());
    while i < parts.len()
        invariant
            from <= i <= parts@.len(),
            all == views(parts@).skip(from as int),
            text@ == joined(all.take(i - from), sep@),
        decreases parts@.len() - i,
    {
        let ghost before = all.take(i - from);
        let ghost now = all.take(i - from + 1);
        assert(now.drop_last() =~= before);
        assert(now.last() == parts@[i as int]@);
        if i > from {
            text.append(sep);
            text.append(parts[i].as_str());
        } else {
            text = parts[i].clone();
            assert(now[0] == parts@[i as int]@);
        }
        i = i + 1;
    }
    assert(all.take(all.len() as int) =~= all);
    text
}

// ── Numbers ─────────────────────────────────────────────────────────────

/// The value of a decimal digit.
pub open spec fn digit_value(c: char) -> Option<int> {
    if '0' <= c <= '9' {
        Some(c as int - '0' as int)
    } else {
        None
    }
}

/// The number that `s` writes in decimal digits; `None` where another character occurs or
/// nothing is written.
pub open spec fn decimal_value(s: Seq<char>) -> Option<int>
    decreases s.len(),
{
    if s.len() == 0 {
        None
    } else {
        match (digit_value(s.last()), decimal_value(s.drop_last())) {
            (Some(d), Some(v)) => Some(10 * v + d),
            (Some(d), None) => if s.len() == 1 {
                Some(d)
            } else {
                None
            },
            _ => None,
        }
    }
}

/// `str::parse::<u64>`: an optional `+` and decimal digits, up to the largest `u64`.
pub open spec fn parsed_u64(s: Seq<char>) -> Option<u64> {
    let digits = if s.len() > 0 && s[0] == '+' {
        s.drop_first()
    } else {
        s
    };
    match decimal_value(digits) {
        Some(v) => if v <= u64::MAX {
            Some(v as u64)
        } else {
            None
        },
        None => None,
    }
}

/// A number written in digits is not negative, and no shorter prefix is larger.
proof fn lemma_decimal_prefix(s: Seq<char>, n: int)
    requires
        0 < n <= s.len(),
        decimal_value(s) is Some,
    ensures
        decimal_value(s.take(n)) is Some,
        0 <= decimal_value(s.take(n))->0 <= decimal_value(s)->0,
    decreases s.len(),
{
    if n == s.len() {
        assert(s.take(n) =~= s);
        if s.len() > 1 {
            lemma_decimal_prefix(s.drop_last(), s.len() - 1);
            assert(s.drop_last().take(s.len() - 1) =~= s.drop_last());
        }
    } else {
        lemma_decimal_prefix(s.drop_last(), n);
        assert(s.drop_last().take(n) =~= s.take(n));
    }
}

/// The value of one decimal digit.
fn digit_of(c: char) -> (digit: Option<u64>)
    ensures
        match digit {
            Some(d) => digit_value(c) == Some(d as int) && d <= 9,
            None => digit_value(c) is None,
        },
{
    match c {
        '0' => Some(0),
        '1' => Some(1),
        '2' => Some(2),
        '3' => Some(3),
        '4' => Some(4),
        '5' => Some(5),
        '6' => Some(6),
        '7' => Some(7),
        '8' => Some(8),
        '9' => Some(9),
        _ => None,
    }
}

/// Reads a decimal number.
pub fn parse_u64(text: &str) -> (number: Option<u64>)
    ensures
        number == parsed_u64(text@),
{
    let list = chars(text);
    let start: usize = if list.len() > 0 && list[0] == '+' {
        1
    } else {
        0
    };
    let ghost digits = list@.skip(start as int);
    proof {
        if start == 1 {
            assert(digits =~= text@.drop_first());
        } else {
            assert(digits =~= text@);
        }
    }
    if start == list.len() {
        return None;
    }
    let mut value: u64 = 0;
    let mut i: usize = start;
    while i < list.len()
        invariant
            start <= i <= list@.len(),
            start < list@.len(),
            digits == list@.skip(start as int),
            i > start ==> decimal_value(digits.take(i - start)) == Some(value as int),
            i == start ==> value == 0,
            parsed_u64(text@) == (match decimal_value(digits) {
                Some(v) => if v <= u64::MAX {
                    Some(v as u64)
                } else {
                    None
                },
                None => None,
            }),
        decreases list@.len() - i,
    {
        let ghost now = digits.take(i - start + 1);
        assert(now.drop_last() =~= digits.take(i - start));
        assert(now.last() == list@[i as int]);
        match digit_of(list[i]) {
            None => {
                proof {
                    assert(decimal_value(now) is None);
                    if decimal_value(digits) is Some {
                        lemma_decimal_prefix(digits, i - start + 1);
                    }
                }
                return None;
            },
            Some(d) => {
                assert(decimal_value(now) == Some(10 * value + d));
                if value > (u64::MAX - d) / 10 {
                    proof {
                        assert(10 * value + d > u64::MAX);
                        if decimal_value(digits) is Some {
                            lemma_decimal_prefix(digits, i - start + 1);
                        }
                    }
                    return None;
                }
                value = value * 10 + d;
            },
        }
        i = i + 1;
    }
    assert(digits.take(digits.len() as int) =~= digits);
    Some(value)
}

} // verus!
