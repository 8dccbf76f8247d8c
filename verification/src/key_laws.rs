//! What keys tell apart: the bytes that a key is the hash of determine what the key stands for.

use vstd::prelude::*;
use crate::context::{artifact_bytes, context_bytes, item_bytes, items_bytes, key_path, key_paths, list_bytes, pairs_bytes, ContextView};
use crate::hash::{field, fields};
use crate::order::{lemma_pair_order, lemma_same_items, lemma_sorted_of, pair_order, sorted_of};
use crate::path::{
    absolute, below, clean, filled, key_form, kept, lead_count, leads, leads_text, lemma_clean_keeps_parts,
    lemma_strip_then_join, lemma_unix_rest, lemma_unix_under, names, parts, prefix_len, prefix_text, render, stops,
    verbatim, PathStyle,
};
use crate::text::{ascii_lower, joined, lemma_split_nonempty, split};
use vstd::utf8::{char_is_scalar, char_u32_cast, encode_scalar, encode_utf8, encode_utf8_decode_utf8};

verus! {

// ── Texts without a zero character ──────────────────────────────────────

/// Whether a text holds no zero character.
pub open spec fn no_nul(s: Seq<char>) -> bool {
    forall|i: int| 0 <= i < s.len() ==> #[trigger] s[i] != '\0'
}

/// Whether no text of a list holds a zero character.
pub open spec fn no_nuls(list: Seq<Seq<char>>) -> bool {
    forall|i: int| 0 <= i < list.len() ==> no_nul(#[trigger] list[i])
}

/// Whether no text of a list of pairs holds a zero character.
pub open spec fn no_nul_pairs(list: Seq<(Seq<char>, Seq<char>)>) -> bool {
    forall|i: int| 0 <= i < list.len() ==> no_nul((#[trigger] list[i]).0) && no_nul(list[i].1)
}

/// Only the zero character is written with a zero byte.
proof fn lemma_scalar_bytes(c: u32)
    requires
        0 < c <= 0x10FFFF,
    ensures
        forall|i: int| 0 <= i < encode_scalar(c).len() ==> #[trigger] encode_scalar(c)[i] != 0,
{
    assert(c <= 0x7F ==> (c & 0x7F) as u8 != 0) by (bit_vector)
        requires
            0 < c,
    ;
    assert((0xC0 | ((c >> 6) & 0x1F) as u8) != 0u8) by (bit_vector);
    assert((0xE0 | ((c >> 12) & 0x0F) as u8) != 0u8) by (bit_vector);
    assert((0xF0 | ((c >> 18) & 0x7) as u8) != 0u8) by (bit_vector);
    assert((0x80 | (c & 0x3F) as u8) != 0u8) by (bit_vector);
    assert((0x80 | ((c >> 6) & 0x3F) as u8) != 0u8) by (bit_vector);
    assert((0x80 | ((c >> 12) & 0x3F) as u8) != 0u8) by (bit_vector);
}

/// A text without a zero character is written without a zero byte.
proof fn lemma_no_zero(s: Seq<char>)
    requires
        no_nul(s),
    ensures
        forall|i: int| 0 <= i < encode_utf8(s).len() ==> #[trigger] encode_utf8(s)[i] != 0,
    decreases s.len(),
{
    if s.len() > 0 {
        let rest = s.drop_first();
        assert forall|i: int| 0 <= i < rest.len() implies #[trigger] rest[i] != '\0' by {
            assert(rest[i] == s[i + 1]);
        }
        lemma_no_zero(rest);
        assert(s[0] != '\0');
        char_is_scalar(s[0]);
        char_u32_cast(s[0], s[0] as u32);
        if s[0] as u32 == 0 {
            assert(0u32 as char == '\0');
        }
        lemma_scalar_bytes(s[0] as u32);
        let head = encode_scalar(s[0] as u32);
        assert forall|i: int| 0 <= i < encode_utf8(s).len() implies #[trigger] encode_utf8(s)[i] != 0 by {
            if i < head.len() {
                assert(encode_utf8(s)[i] == head[i]);
            } else {
                assert(encode_utf8(s)[i] == encode_utf8(rest)[i - head.len()]);
            }
        }
    }
}

/// Texts are written one after the other.
pub(crate) proof fn lemma_encode_concat(a: Seq<char>, b: Seq<char>)
    ensures
        encode_utf8(a + b) == encode_utf8(a) + encode_utf8(b),
    decreases a.len(),
{
    if a.len() == 0 {
        assert(a + b =~= b);
        assert(encode_utf8(a) + encode_utf8(b) =~= encode_utf8(b));
    } else {
        lemma_encode_concat(a.drop_first(), b);
        assert((a + b).drop_first() =~= a.drop_first() + b);
        assert(encode_utf8(a + b) =~= encode_utf8(a) + encode_utf8(b));
    }
}

// ── Fields and lists ────────────────────────────────────────────────────

/// A field is told apart from what follows it.
pub proof fn lemma_field_cut(a: Seq<char>, b: Seq<char>, x: Seq<u8>, y: Seq<u8>)
    requires
        no_nul(a),
        no_nul(b),
        field(a) + x == field(b) + y,
    ensures
        a == b,
        x == y,
{
    lemma_no_zero(a);
    lemma_no_zero(b);
    let s = field(a) + x;
    let t = field(b) + y;
    let p = encode_utf8(a);
    let q = encode_utf8(b);
    assert(forall|i: int| 0 <= i < p.len() ==> s[i] == p[i]);
    assert(forall|i: int| 0 <= i < q.len() ==> t[i] == q[i]);
    assert(s[p.len() as int] == 0);
    assert(t[q.len() as int] == 0);
    if p.len() < q.len() {
        assert(t[p.len() as int] == q[p.len() as int]);
    }
    if q.len() < p.len() {
        assert(s[q.len() as int] == p[q.len() as int]);
    }
    assert(p =~= q) by {
        assert forall|i: int| 0 <= i < p.len() implies p[i] == q[i] by {
            assert(s[i] == p[i] && t[i] == q[i]);
        }
    }
    encode_utf8_decode_utf8(a);
    encode_utf8_decode_utf8(b);
    assert(s.skip(p.len() as int + 1) =~= x);
    assert(t.skip(p.len() as int + 1) =~= y);
}

/// The fields of a list, first one first.
proof fn lemma_fields_first(list: Seq<Seq<char>>)
    requires
        list.len() > 0,
    ensures
        fields(list) == field(list[0]) + fields(list.drop_first()),
    decreases list.len(),
{
    if list.len() == 1 {
        assert(list.drop_last() =~= Seq::<Seq<char>>::empty());
        assert(list.drop_first() =~= Seq::<Seq<char>>::empty());
        assert(fields(list) =~= field(list[0]) + fields(list.drop_first()));
    } else {
        let init = list.drop_last();
        lemma_fields_first(init);
        assert(init.drop_first() =~= list.drop_first().drop_last());
        assert(fields(list) =~= field(list[0]) + fields(list.drop_first()));
    }
}

/// The fields of one list after those of another.
pub(crate) proof fn lemma_fields_concat(a: Seq<Seq<char>>, b: Seq<Seq<char>>)
    ensures
        fields(a + b) == fields(a) + fields(b),
    decreases b.len(),
{
    if b.len() == 0 {
        assert(a + b =~= a);
        assert(fields(a) + fields(b) =~= fields(a));
    } else {
        lemma_fields_concat(a, b.drop_last());
        assert((a + b).drop_last() =~= a + b.drop_last());
        assert(fields(a + b) =~= fields(a) + fields(b));
    }
}

/// Fields determine the texts they were written from.
pub proof fn lemma_fields_determine(a: Seq<Seq<char>>, b: Seq<Seq<char>>)
    requires
        no_nuls(a),
        no_nuls(b),
        fields(a) == fields(b),
    ensures
        a == b,
    decreases a.len(),
{
    if a.len() == 0 {
        if b.len() > 0 {
            lemma_fields_first(b);
        }
        assert(a =~= b);
    } else {
        lemma_fields_first(a);
        if b.len() > 0 {
            lemma_fields_first(b);
            lemma_field_cut(a[0], b[0], fields(a.drop_first()), fields(b.drop_first()));
            lemma_no_nuls_rest(a);
            lemma_no_nuls_rest(b);
            lemma_fields_determine(a.drop_first(), b.drop_first());
            assert(a =~= seq![a[0]] + a.drop_first());
            assert(b =~= seq![b[0]] + b.drop_first());
        }
    }
}

/// The rest of a list without zero characters has none.
proof fn lemma_no_nuls_rest(a: Seq<Seq<char>>)
    requires
        no_nuls(a),
        a.len() > 0,
    ensures
        no_nuls(a.drop_first()),
{
    assert forall|i: int| 0 <= i < a.drop_first().len() implies no_nul(#[trigger] a.drop_first()[i]) by {
        assert(a.drop_first()[i] == a[i + 1]);
    }
}

/// The items of a list, first one first.
proof fn lemma_items_first(list: Seq<Seq<char>>)
    requires
        list.len() > 0,
    ensures
        items_bytes(list) == item_bytes(list[0]) + items_bytes(list.drop_first()),
    decreases list.len(),
{
    if list.len() == 1 {
        assert(list.drop_last() =~= Seq::<Seq<char>>::empty());
        assert(list.drop_first() =~= Seq::<Seq<char>>::empty());
        assert(items_bytes(list) =~= item_bytes(list[0]) + items_bytes(list.drop_first()));
    } else {
        let init = list.drop_last();
        lemma_items_first(init);
        assert(init.drop_first() =~= list.drop_first().drop_last());
        assert(items_bytes(list) =~= item_bytes(list[0]) + items_bytes(list.drop_first()));
    }
}

/// A list is told apart from what follows it.
pub proof fn lemma_list_cut(a: Seq<Seq<char>>, b: Seq<Seq<char>>, x: Seq<u8>, y: Seq<u8>)
    requires
        no_nuls(a),
        no_nuls(b),
        list_bytes(a) + x == list_bytes(b) + y,
    ensures
        a == b,
        x == y,
    decreases a.len(),
{
    let s = list_bytes(a) + x;
    let t = list_bytes(b) + y;
    if a.len() > 0 {
        lemma_items_first(a);
        assert(s[0] == 1u8);
    } else {
        assert(s[0] == 2u8);
    }
    if b.len() > 0 {
        lemma_items_first(b);
        assert(t[0] == 1u8);
    } else {
        assert(t[0] == 2u8);
    }
    if a.len() > 0 {
        let p = a.drop_first();
        let q = b.drop_first();
        assert(s.skip(1) =~= field(a[0]) + (list_bytes(p) + x));
        assert(t.skip(1) =~= field(b[0]) + (list_bytes(q) + y));
        lemma_field_cut(a[0], b[0], list_bytes(p) + x, list_bytes(q) + y);
        lemma_no_nuls_rest(a);
        lemma_no_nuls_rest(b);
        lemma_list_cut(p, q, x, y);
        assert(a =~= seq![a[0]] + p);
        assert(b =~= seq![b[0]] + q);
    } else {
        assert(a =~= b);
        assert(s.skip(1) =~= x);
        assert(t.skip(1) =~= y);
    }
}

/// Labelled hashes, first one first.
proof fn lemma_pairs_first(list: Seq<(Seq<char>, Seq<char>)>)
    requires
        list.len() > 0,
    ensures
        pairs_bytes(list) == field(list[0].0) + (field(list[0].1) + pairs_bytes(list.drop_first())),
    decreases list.len(),
{
    if list.len() == 1 {
        assert(list.drop_last() =~= Seq::<(Seq<char>, Seq<char>)>::empty());
        assert(list.drop_first() =~= Seq::<(Seq<char>, Seq<char>)>::empty());
        assert(pairs_bytes(list) =~= field(list[0].0) + (field(list[0].1) + pairs_bytes(list.drop_first())));
    } else {
        let init = list.drop_last();
        lemma_pairs_first(init);
        assert(init.drop_first() =~= list.drop_first().drop_last());
        assert(pairs_bytes(list) =~= field(list[0].0) + (field(list[0].1) + pairs_bytes(list.drop_first())));
    }
}

/// Labelled hashes are determined by what is written of them.
proof fn lemma_pairs_determine(a: Seq<(Seq<char>, Seq<char>)>, b: Seq<(Seq<char>, Seq<char>)>)
    requires
        no_nul_pairs(a),
        no_nul_pairs(b),
        pairs_bytes(a) == pairs_bytes(b),
    ensures
        a == b,
    decreases a.len(),
{
    if a.len() == 0 {
        if b.len() > 0 {
            lemma_pairs_first(b);
        }
        assert(a =~= b);
    } else {
        lemma_pairs_first(a);
        if b.len() > 0 {
            let p = a.drop_first();
            let q = b.drop_first();
            lemma_pairs_first(b);
            lemma_field_cut(a[0].0, b[0].0, field(a[0].1) + pairs_bytes(p), field(b[0].1) + pairs_bytes(q));
            lemma_field_cut(a[0].1, b[0].1, pairs_bytes(p), pairs_bytes(q));
            assert forall|i: int| 0 <= i < p.len() implies no_nul((#[trigger] p[i]).0) && no_nul(p[i].1) by {
                assert(p[i] == a[i + 1]);
            }
            assert forall|i: int| 0 <= i < q.len() implies no_nul((#[trigger] q[i]).0) && no_nul(q[i].1) by {
                assert(q[i] == b[i + 1]);
            }
            lemma_pairs_determine(p, q);
            assert(a =~= seq![a[0]] + p);
            assert(b =~= seq![b[0]] + q);
        }
    }
}

// ── Spelled paths ───────────────────────────────────────────────────────

/// Splitting brings no zero character in.
proof fn lemma_split_no_nul(s: Seq<char>, stop: spec_fn(char) -> bool)
    requires
        no_nul(s),
    ensures
        no_nuls(split(s, stop)),
    decreases s.len(),
{
    if s.len() > 0 {
        let init = s.drop_last();
        assert forall|i: int| 0 <= i < init.len() implies #[trigger] init[i] != '\0' by {
            assert(init[i] == s[i]);
        }
        lemma_split_no_nul(init, stop);
        lemma_split_nonempty(init, stop);
        let before = split(init, stop);
        let now = split(s, stop);
        assert forall|i: int| 0 <= i < now.len() implies no_nul(#[trigger] now[i]) by {
            if i < before.len() {
                assert(no_nul(before[i]));
                assert(s[s.len() - 1] != '\0');
            }
        }
    }
}

/// Keeping components brings no zero character in.
proof fn lemma_kept_no_nul(pieces: Seq<Seq<char>>, rooted: bool)
    requires
        no_nuls(pieces),
    ensures
        no_nuls(kept(pieces, rooted)),
        no_nuls(filled(pieces)),
    decreases pieces.len(),
{
    if pieces.len() > 0 {
        let init = pieces.drop_last();
        assert forall|i: int| 0 <= i < init.len() implies no_nul(#[trigger] init[i]) by {
            assert(init[i] == pieces[i]);
        }
        lemma_kept_no_nul(init, rooted);
        assert(no_nul(pieces[pieces.len() - 1]));
    }
}

/// Joining brings no zero character in.
proof fn lemma_joined_no_nul(list: Seq<Seq<char>>, sep: Seq<char>)
    requires
        no_nuls(list),
        no_nul(sep),
    ensures
        no_nul(joined(list, sep)),
    decreases list.len(),
{
    if list.len() == 1 {
        assert(no_nul(list[0]));
    } else if list.len() > 1 {
        let init = list.drop_last();
        assert forall|i: int| 0 <= i < init.len() implies no_nul(#[trigger] init[i]) by {
            assert(init[i] == list[i]);
        }
        lemma_joined_no_nul(init, sep);
        assert(no_nul(list[list.len() - 1]));
    }
}

/// Reading a path into parts brings no zero character in.
proof fn lemma_parts_no_nul(style: PathStyle, s: Seq<char>)
    requires
        no_nul(s),
    ensures
        no_nuls(parts(style, s)),
{
    let n = crate::path::lead_len(style, s);
    let rest = s.skip(n);
    crate::path::lemma_prefix_len(style, s);
    assert forall|i: int| 0 <= i < rest.len() implies #[trigger] rest[i] != '\0' by {
        assert(rest[i] == s[n + i]);
    }
    let stop = stops(style, verbatim(style, s));
    lemma_split_no_nul(rest, stop);
    lemma_kept_no_nul(split(rest, stop), crate::path::rooted(style, s));
    let text = prefix_text(style, s);
    assert(no_nul(text)) by {
        let k = prefix_len(style, s);
        if crate::path::verbatim_share(style, s) {
            crate::path::lemma_two_names(s, 8, stops(style, true));
            assert forall|i: int| 0 <= i < text.len() implies #[trigger] text[i] != '\0' by {
                if i < 7 || i >= 8 {
                    assert(text[i] == s[i]);
                }
            }
        } else if verbatim(style, s) {
            assert forall|i: int| 0 <= i < text.len() implies #[trigger] text[i] != '\0' by {
                assert(text[i] == s[i]);
            }
        } else {
            assert forall|i: int| 0 <= i < text.len() implies #[trigger] text[i] != '\0' by {
                assert(text[i] == crate::path::slash(style, s[i]));
                assert(s[i] != '\0');
            }
        }
    }
    let l = leads(style, s);
    assert(no_nuls(l));
    let p = parts(style, s);
    assert forall|i: int| 0 <= i < p.len() implies no_nul(#[trigger] p[i]) by {
        if i < l.len() {
            assert(p[i] == l[i]);
        } else {
            assert(p[i] == names(style, s)[i - l.len()]);
        }
    }
}

/// Writing parts brings no zero character in.
proof fn lemma_render_no_nul(style: PathStyle, p: Seq<Seq<char>>)
    requires
        no_nuls(p),
    ensures
        no_nul(render(style, p)),
{
    let k = lead_count(style, p);
    let tail = p.skip(k);
    assert forall|i: int| 0 <= i < tail.len() implies no_nul(#[trigger] tail[i]) by {
        assert(tail[i] == p[i + k]);
    }
    lemma_joined_no_nul(tail, seq!['/']);
    lemma_joined_no_nul(tail, seq!['\\']);
    if p.len() > 0 {
        assert(no_nul(p[0]));
        if p[0].len() > 0 {
            assert forall|i: int| 0 <= i < p[0].skip(1).len() implies #[trigger] p[0].skip(1)[i] != '\0' by {
                assert(p[0].skip(1)[i] == p[0][i + 1]);
            }
        }
    }
    if p.len() > 1 {
        assert(no_nul(p[1]));
        if p[1].len() > 0 {
            assert forall|i: int| 0 <= i < p[1].skip(1).len() implies #[trigger] p[1].skip(1)[i] != '\0' by {
                assert(p[1].skip(1)[i] == p[1][i + 1]);
            }
        }
    }
    assert(no_nul(leads_text(style, p, k)));
}

/// Spelling a path for keys brings no zero character in.
pub proof fn lemma_key_form_no_nul(style: PathStyle, s: Seq<char>)
    requires
        no_nul(s),
    ensures
        no_nul(key_form(style, s)),
{
    lemma_parts_no_nul(style, s);
    lemma_render_no_nul(style, parts(style, s));
    let text = clean(style, s);
    assert(no_nul(text));
    assert forall|i: int| 0 <= i < key_form(style, s).len() implies #[trigger] key_form(style, s)[i] != '\0' by {
        assert(text[i] != '\0');
        assert(ascii_lower(text[i]) != '\0');
    }
}

/// What is left of a path below a root brings no zero character in.
pub proof fn lemma_below_no_nul(style: PathStyle, s: Seq<char>, root: Seq<char>)
    requires
        no_nul(s),
        below(style, s, root) is Some,
    ensures
        no_nul(below(style, s, root)->0),
{
    let p = parts(style, s);
    let n = parts(style, root).len() as int;
    lemma_parts_no_nul(style, s);
    assert forall|i: int| 0 <= i < p.skip(n).len() implies no_nul(#[trigger] p.skip(n)[i]) by {
        assert(p.skip(n)[i] == p[i + n]);
    }
    lemma_render_no_nul(style, p.skip(n));
}

/// Spelling a path for context keys brings no zero character in.
proof fn lemma_key_path_no_nul(style: PathStyle, s: Seq<char>, root: Option<Seq<char>>)
    requires
        no_nul(s),
    ensures
        no_nul(key_path(style, s, root)),
{
    lemma_key_form_no_nul(style, s);
    if let Some(r) = root {
        if let Some(rest) = below(style, s, r) {
            lemma_below_no_nul(style, s, r);
            lemma_key_form_no_nul(style, rest);
        }
    }
}

/// The same of a list of paths.
proof fn lemma_key_paths_no_nul(style: PathStyle, list: Seq<Seq<char>>, root: Option<Seq<char>>)
    requires
        no_nuls(list),
    ensures
        no_nuls(key_paths(style, list, root)),
{
    assert forall|i: int| 0 <= i < list.len() implies no_nul(#[trigger] key_paths(style, list, root)[i]) by {
        lemma_key_path_no_nul(style, list[i], root);
    }
}

// ── Context keys ────────────────────────────────────────────────────────

/// Whether no text of a context holds a zero character: no command line can hold one.
pub open spec fn no_nul_context(ctx: ContextView) -> bool {
    &&& no_nul(ctx.source)
    &&& no_nuls(ctx.user)
    &&& no_nuls(ctx.system)
    &&& no_nuls(ctx.defines)
    &&& no_nuls(ctx.flags)
    &&& no_nuls(ctx.forced)
    &&& no_nuls(ctx.unknown)
}

/// Whether an optional text holds no zero character.
pub open spec fn no_nul_option(text: Option<Seq<char>>) -> bool {
    text matches Some(t) ==> no_nul(t)
}

/// The bytes that a context key is the hash of determine the context: where they are the same, so
/// are the definitions, the flags and the unknown flags, each in order, the salt, and the spelling
/// of the source, of every search directory and of every forced header.
pub proof fn lemma_context_bytes_determine(
    style: PathStyle,
    a: ContextView,
    b: ContextView,
    root_a: Option<Seq<char>>,
    root_b: Option<Seq<char>>,
    salt_a: Option<Seq<char>>,
    salt_b: Option<Seq<char>>,
)
    requires
        no_nul_context(a),
        no_nul_context(b),
        no_nul_option(salt_a),
        no_nul_option(salt_b),
        context_bytes(style, a, root_a, salt_a) == context_bytes(style, b, root_b, salt_b),
    ensures
        key_path(style, a.source, root_a) == key_path(style, b.source, root_b),
        a.user.len() == b.user.len(),
        forall|i: int| 0 <= i < a.user.len() ==> key_path(style, #[trigger] a.user[i], root_a) == key_path(style, b.user[i], root_b),
        a.system.len() == b.system.len(),
        forall|i: int|
            0 <= i < a.system.len() ==> key_path(style, #[trigger] a.system[i], root_a) == key_path(style, b.system[i], root_b),
        a.forced.len() == b.forced.len(),
        forall|i: int|
            0 <= i < a.forced.len() ==> key_path(style, #[trigger] a.forced[i], root_a) == key_path(style, b.forced[i], root_b),
        a.defines == b.defines,
        a.flags == b.flags,
        a.unknown == b.unknown,
        salt_a == salt_b,
{
    lemma_context_core(style, a, b, root_a, root_b, salt_a, salt_b);
    lemma_context_lists_tell(style, a, root_a, salt_a);
    lemma_context_lists_tell(style, b, root_b, salt_b);
    lemma_same_keys(style, a.user, b.user, root_a, root_b);
    lemma_same_keys(style, a.system, b.system, root_a, root_b);
    lemma_same_keys(style, a.forced, b.forced, root_a, root_b);
    let s7 = salt_list(salt_a);
    let t7 = salt_list(salt_b);
    if let Some(s) = salt_a {
        assert(s7[0] == s);
    }
    if let Some(s) = salt_b {
        assert(t7[0] == s);
    }
}

/// Lists of paths that are spelled alike, path by path.
proof fn lemma_same_keys(style: PathStyle, a: Seq<Seq<char>>, b: Seq<Seq<char>>, root_a: Option<Seq<char>>, root_b: Option<Seq<char>>)
    requires
        key_paths(style, a, root_a) == key_paths(style, b, root_b),
    ensures
        a.len() == b.len(),
        forall|i: int| 0 <= i < a.len() ==> key_path(style, #[trigger] a[i], root_a) == key_path(style, b[i], root_b),
{
    let p = key_paths(style, a, root_a);
    let q = key_paths(style, b, root_b);
    assert(p.len() == a.len() && q.len() == b.len());
    assert forall|i: int| 0 <= i < a.len() implies key_path(style, #[trigger] a[i], root_a) == key_path(style, b[i], root_b) by {
        assert(p[i] == q[i]);
    }
}

/// Which list is which.
proof fn lemma_context_lists_tell(style: PathStyle, ctx: ContextView, root: Option<Seq<char>>, salt: Option<Seq<char>>)
    ensures
        ({
            let l = context_lists(style, ctx, root, salt);
            &&& l[0] == key_paths(style, ctx.user, root)
            &&& l[1] == key_paths(style, ctx.system, root)
            &&& l[2] == ctx.defines
            &&& l[3] == ctx.flags
            &&& l[4] == key_paths(style, ctx.forced, root)
            &&& l[5] == ctx.unknown
            &&& l[6] == salt_list(salt)
        }),
{
    reveal(context_lists);
}

/// How a path is spelled in context keys: by what is left of it below the root, where it lies below
/// one, and else as a whole.
pub proof fn lemma_key_path_spelling(style: PathStyle, path: Seq<char>, root: Seq<char>)
    ensures
        key_path(style, path, None) == key_form(style, path),
        below(style, path, root) is None ==> key_path(style, path, Some(root)) == key_form(style, path),
        below(style, path, root) matches Some(rest) ==> key_path(style, path, Some(root)) == key_form(style, rest),
{
}

/// Whether a path can be told from its spelling in keys under this root: absolute paths under an
/// absolute root, or any path where there is no root.
pub open spec fn tellable(path: Seq<char>, root: Option<Seq<char>>) -> bool {
    root matches Some(r) ==> absolute(PathStyle::Unix, r) && absolute(PathStyle::Unix, path)
}

/// On Unix the spelling of a path in keys determines the path: distinct paths are spelled apart.
pub proof fn lemma_key_path_determines(p: Seq<char>, q: Seq<char>, root: Option<Seq<char>>)
    requires
        tellable(p, root),
        tellable(q, root),
        key_path(PathStyle::Unix, p, root) == key_path(PathStyle::Unix, q, root),
    ensures
        parts(PathStyle::Unix, p) == parts(PathStyle::Unix, q),
{
    let style = PathStyle::Unix;
    lemma_clean_keeps_parts(style, p);
    lemma_clean_keeps_parts(style, q);
    if let Some(r) = root {
        if below(style, p, r) is Some {
            lemma_unix_rest(p, r);
            lemma_unix_under(p, r);
            lemma_strip_then_join(style, p, r);
        }
        if below(style, q, r) is Some {
            lemma_unix_rest(q, r);
            lemma_unix_under(q, r);
            lemma_strip_then_join(style, q, r);
        }
    }
}

/// Whether every path of a context can be told from its spelling.
pub open spec fn tellable_context(ctx: ContextView, root: Option<Seq<char>>) -> bool {
    &&& tellable(ctx.source, root)
    &&& forall|i: int| 0 <= i < ctx.user.len() ==> tellable(#[trigger] ctx.user[i], root)
    &&& forall|i: int| 0 <= i < ctx.system.len() ==> tellable(#[trigger] ctx.system[i], root)
    &&& forall|i: int| 0 <= i < ctx.forced.len() ==> tellable(#[trigger] ctx.forced[i], root)
}

/// Whether two lists write the same paths, one by one.
pub open spec fn same_paths(a: Seq<Seq<char>>, b: Seq<Seq<char>>) -> bool {
    a.len() == b.len() && forall|i: int|
        0 <= i < a.len() ==> parts(PathStyle::Unix, #[trigger] a[i]) == parts(PathStyle::Unix, b[i])
}

/// On Unix the bytes that a context key is the hash of determine the whole context: contexts with
/// the same bytes name the same source, the same directories and forced headers in the same order,
/// and the same definitions, flags, unknown flags and salt.
pub proof fn lemma_contexts_are_told_apart(
    a: ContextView,
    b: ContextView,
    root: Option<Seq<char>>,
    salt_a: Option<Seq<char>>,
    salt_b: Option<Seq<char>>,
)
    requires
        no_nul_context(a),
        no_nul_context(b),
        no_nul_option(salt_a),
        no_nul_option(salt_b),
        tellable_context(a, root),
        tellable_context(b, root),
        context_bytes(PathStyle::Unix, a, root, salt_a) == context_bytes(PathStyle::Unix, b, root, salt_b),
    ensures
        parts(PathStyle::Unix, a.source) == parts(PathStyle::Unix, b.source),
        same_paths(a.user, b.user),
        same_paths(a.system, b.system),
        same_paths(a.forced, b.forced),
        a.defines == b.defines,
        a.flags == b.flags,
        a.unknown == b.unknown,
        salt_a == salt_b,
{
    lemma_context_bytes_determine(PathStyle::Unix, a, b, root, root, salt_a, salt_b);
    lemma_key_path_determines(a.source, b.source, root);
    lemma_same_paths(a.user, b.user, root);
    lemma_same_paths(a.system, b.system, root);
    lemma_same_paths(a.forced, b.forced, root);
}

/// Lists that are spelled alike write the same paths.
proof fn lemma_same_paths(a: Seq<Seq<char>>, b: Seq<Seq<char>>, root: Option<Seq<char>>)
    requires
        a.len() == b.len(),
        forall|i: int| 0 <= i < a.len() ==> tellable(#[trigger] a[i], root),
        forall|i: int| 0 <= i < b.len() ==> tellable(#[trigger] b[i], root),
        forall|i: int| 0 <= i < a.len() ==> key_path(PathStyle::Unix, #[trigger] a[i], root) == key_path(PathStyle::Unix, b[i], root),
    ensures
        same_paths(a, b),
{
    assert forall|i: int| 0 <= i < a.len() implies parts(PathStyle::Unix, #[trigger] a[i]) == parts(PathStyle::Unix, b[i]) by {
        assert(tellable(b[i], root));
        lemma_key_path_determines(a[i], b[i], root);
    }
}

/// Whether `q` under the root `b` is what `p` is under the root `a`: the same path below it, or
/// one path outside both.
pub open spec fn moved(style: PathStyle, p: Seq<char>, q: Seq<char>, a: Seq<char>, b: Seq<char>) -> bool {
    if below(style, p, a) is Some {
        below(style, q, b) == below(style, p, a)
    } else {
        below(style, q, b) is None && p == q
    }
}

/// Whether the paths of one list moved to those of another.
pub open spec fn all_moved(style: PathStyle, p: Seq<Seq<char>>, q: Seq<Seq<char>>, a: Seq<char>, b: Seq<char>) -> bool {
    p.len() == q.len() && forall|i: int| 0 <= i < p.len() ==> moved(style, #[trigger] p[i], q[i], a, b)
}

/// The same compilation in two worktrees has the same bytes, and so the same key: only what lies
/// below the root counts of a path there.
pub proof fn lemma_contexts_move(
    style: PathStyle,
    x: ContextView,
    y: ContextView,
    a: Seq<char>,
    b: Seq<char>,
    salt: Option<Seq<char>>,
)
    requires
        moved(style, x.source, y.source, a, b),
        all_moved(style, x.user, y.user, a, b),
        all_moved(style, x.system, y.system, a, b),
        all_moved(style, x.forced, y.forced, a, b),
        x.defines == y.defines,
        x.flags == y.flags,
        x.unknown == y.unknown,
    ensures
        context_bytes(style, x, Some(a), salt) == context_bytes(style, y, Some(b), salt),
{
    assert(key_paths(style, x.user, Some(a)) =~= key_paths(style, y.user, Some(b)));
    assert(key_paths(style, x.system, Some(a)) =~= key_paths(style, y.system, Some(b)));
    assert(key_paths(style, x.forced, Some(a)) =~= key_paths(style, y.forced, Some(b)));
}

/// The lists that are hashed of a context.
#[verifier::opaque]
spec fn context_lists(style: PathStyle, ctx: ContextView, root: Option<Seq<char>>, salt: Option<Seq<char>>) -> Seq<
    Seq<Seq<char>>,
> {
    seq![
        key_paths(style, ctx.user, root),
        key_paths(style, ctx.system, root),
        ctx.defines,
        ctx.flags,
        key_paths(style, ctx.forced, root),
        ctx.unknown,
        salt_list(salt),
    ]
}

/// Lists as they are hashed, one after the other.
spec fn lists_bytes(lists: Seq<Seq<Seq<char>>>) -> Seq<u8>
    decreases lists.len(),
{
    if lists.len() == 0 {
        Seq::empty()
    } else {
        list_bytes(lists[0]) + lists_bytes(lists.drop_first())
    }
}

/// Lists are determined by what is written of them.
proof fn lemma_lists_determine(p: Seq<Seq<Seq<char>>>, q: Seq<Seq<Seq<char>>>)
    requires
        p.len() == q.len(),
        forall|i: int| 0 <= i < p.len() ==> no_nuls(#[trigger] p[i]),
        forall|i: int| 0 <= i < q.len() ==> no_nuls(#[trigger] q[i]),
        lists_bytes(p) == lists_bytes(q),
    ensures
        p == q,
    decreases p.len(),
{
    if p.len() > 0 {
        let a = p.drop_first();
        let b = q.drop_first();
        assert(no_nuls(p[0]) && no_nuls(q[0]));
        lemma_list_cut(p[0], q[0], lists_bytes(a), lists_bytes(b));
        assert forall|i: int| 0 <= i < a.len() implies no_nuls(#[trigger] a[i]) by {
            assert(a[i] == p[i + 1]);
        }
        assert forall|i: int| 0 <= i < b.len() implies no_nuls(#[trigger] b[i]) by {
            assert(b[i] == q[i + 1]);
        }
        lemma_lists_determine(a, b);
        assert(p =~= seq![p[0]] + a);
        assert(q =~= seq![q[0]] + b);
    } else {
        assert(p =~= q);
    }
}

/// Grouping does not show in what is written.
proof fn lemma_regroup(a: Seq<u8>, b: Seq<u8>, c: Seq<u8>)
    ensures
        (a + b) + c == a + (b + c),
{
    assert((a + b) + c =~= a + (b + c));
}

/// How a context is hashed, list by list.
proof fn lemma_context_lists(style: PathStyle, ctx: ContextView, root: Option<Seq<char>>, salt: Option<Seq<char>>)
    ensures
        context_bytes(style, ctx, root, salt) == field("zccache-context"@) + (field(key_path(style, ctx.source, root))
            + lists_bytes(context_lists(style, ctx, root, salt))),
{
    reveal(context_lists);
    let l = context_lists(style, ctx, root, salt);
    let tag = field("zccache-context"@);
    let src = field(key_path(style, ctx.source, root));
    assert(context_bytes(style, ctx, root, salt) == tag + src + list_bytes(l[0]) + list_bytes(l[1]) + list_bytes(l[2]) + list_bytes(
        l[3],
    ) + list_bytes(l[4]) + list_bytes(l[5]) + list_bytes(l[6]));
    lemma_lists_seven(l, tag + src);
    lemma_regroup(tag, src, lists_bytes(l));
}

/// Seven lists, one after the other.
proof fn lemma_lists_seven(l: Seq<Seq<Seq<char>>>, front: Seq<u8>)
    requires
        l.len() == 7,
    ensures
        front + list_bytes(l[0]) + list_bytes(l[1]) + list_bytes(l[2]) + list_bytes(l[3]) + list_bytes(l[4]) + list_bytes(l[5])
            + list_bytes(l[6]) == front + lists_bytes(l),
{
    let l1 = l.drop_first();
    let l2 = l1.drop_first();
    let l3 = l2.drop_first();
    let l4 = l3.drop_first();
    let l5 = l4.drop_first();
    let l6 = l5.drop_first();
    let none = l6.drop_first();
    assert(l1[0] == l[1] && l2[0] == l[2] && l3[0] == l[3] && l4[0] == l[4] && l5[0] == l[5] && l6[0] == l[6]);
    let f0 = front + list_bytes(l[0]);
    let f1 = f0 + list_bytes(l[1]);
    let f2 = f1 + list_bytes(l[2]);
    let f3 = f2 + list_bytes(l[3]);
    let f4 = f3 + list_bytes(l[4]);
    let f5 = f4 + list_bytes(l[5]);
    let f6 = f5 + list_bytes(l[6]);
    assert(lists_bytes(none) == Seq::<u8>::empty());
    assert(f6 + Seq::<u8>::empty() =~= f6);
    lemma_regroup(front, list_bytes(l[0]), lists_bytes(l1));
    lemma_regroup(f0, list_bytes(l[1]), lists_bytes(l2));
    lemma_regroup(f1, list_bytes(l[2]), lists_bytes(l3));
    lemma_regroup(f2, list_bytes(l[3]), lists_bytes(l4));
    lemma_regroup(f3, list_bytes(l[4]), lists_bytes(l5));
    lemma_regroup(f4, list_bytes(l[5]), lists_bytes(l6));
    lemma_regroup(f5, list_bytes(l[6]), lists_bytes(none));
    assert(lists_bytes(l6) == list_bytes(l[6]) + lists_bytes(none));
    assert(lists_bytes(l5) == list_bytes(l[5]) + lists_bytes(l6));
    assert(lists_bytes(l4) == list_bytes(l[4]) + lists_bytes(l5));
    assert(lists_bytes(l3) == list_bytes(l[3]) + lists_bytes(l4));
    assert(lists_bytes(l2) == list_bytes(l[2]) + lists_bytes(l3));
    assert(lists_bytes(l1) == list_bytes(l[1]) + lists_bytes(l2));
    assert(lists_bytes(l) == list_bytes(l[0]) + lists_bytes(l1));
}

/// The source and the lists of a context are determined by what is hashed.
proof fn lemma_context_core(
    style: PathStyle,
    a: ContextView,
    b: ContextView,
    root_a: Option<Seq<char>>,
    root_b: Option<Seq<char>>,
    salt_a: Option<Seq<char>>,
    salt_b: Option<Seq<char>>,
)
    requires
        no_nul_context(a),
        no_nul_context(b),
        no_nul_option(salt_a),
        no_nul_option(salt_b),
        context_bytes(style, a, root_a, salt_a) == context_bytes(style, b, root_b, salt_b),
    ensures
        key_path(style, a.source, root_a) == key_path(style, b.source, root_b),
        context_lists(style, a, root_a, salt_a) == context_lists(style, b, root_b, salt_b),
{
    let p = context_lists(style, a, root_a, salt_a);
    let q = context_lists(style, b, root_b, salt_b);
    lemma_context_lists_no_nul(style, a, root_a, salt_a);
    lemma_context_lists_no_nul(style, b, root_b, salt_b);
    lemma_context_lists(style, a, root_a, salt_a);
    lemma_context_lists(style, b, root_b, salt_b);
    lemma_key_path_no_nul(style, a.source, root_a);
    lemma_key_path_no_nul(style, b.source, root_b);
    lemma_laid_out(key_path(style, a.source, root_a), key_path(style, b.source, root_b), p, q);
}

/// A source and lists are determined by what is written of them.
proof fn lemma_laid_out(s: Seq<char>, t: Seq<char>, p: Seq<Seq<Seq<char>>>, q: Seq<Seq<Seq<char>>>)
    requires
        no_nul(s),
        no_nul(t),
        p.len() == q.len(),
        forall|i: int| 0 <= i < p.len() ==> no_nuls(#[trigger] p[i]),
        forall|i: int| 0 <= i < q.len() ==> no_nuls(#[trigger] q[i]),
        field("zccache-context"@) + (field(s) + lists_bytes(p)) == field("zccache-context"@) + (field(t) + lists_bytes(q)),
    ensures
        s == t,
        p == q,
{
    let tag = "zccache-context"@;
    assert(no_nul(tag)) by {
        reveal_strlit("zccache-context");
    }
    lemma_field_cut(tag, tag, field(s) + lists_bytes(p), field(t) + lists_bytes(q));
    lemma_field_cut(s, t, lists_bytes(p), lists_bytes(q));
    lemma_lists_determine(p, q);
}

/// What is hashed of a context holds no zero character.
proof fn lemma_context_lists_no_nul(style: PathStyle, ctx: ContextView, root: Option<Seq<char>>, salt: Option<Seq<char>>)
    requires
        no_nul_context(ctx),
        no_nul_option(salt),
    ensures
        context_lists(style, ctx, root, salt).len() == 7,
        forall|i: int| 0 <= i < 7 ==> no_nuls(#[trigger] context_lists(style, ctx, root, salt)[i]),
{
    reveal(context_lists);
    lemma_key_paths_no_nul(style, ctx.user, root);
    lemma_key_paths_no_nul(style, ctx.system, root);
    lemma_key_paths_no_nul(style, ctx.forced, root);
    assert(no_nuls(salt_list(salt)));
}

/// The salt as a list.
spec fn salt_list(salt: Option<Seq<char>>) -> Seq<Seq<char>> {
    match salt {
        Some(s) => seq![s],
        None => Seq::empty(),
    }
}

// ── Artifact keys ───────────────────────────────────────────────────────

/// The bytes that an artifact key is the hash of determine the context and every labelled hash:
/// what was made from other contents, or in another context, has other bytes.
pub proof fn lemma_artifact_bytes_determine(
    context_a: Seq<char>,
    context_b: Seq<char>,
    a: Seq<(Seq<char>, Seq<char>)>,
    b: Seq<(Seq<char>, Seq<char>)>,
)
    requires
        no_nul(context_a),
        no_nul(context_b),
        no_nul_pairs(a),
        no_nul_pairs(b),
        artifact_bytes(context_a, a) == artifact_bytes(context_b, b),
    ensures
        context_a == context_b,
        a.to_multiset() == b.to_multiset(),
{
    let p = sorted_of(a, pair_order());
    let q = sorted_of(b, pair_order());
    lemma_pair_order();
    lemma_sorted_of(a, pair_order());
    lemma_sorted_of(b, pair_order());
    lemma_sorted_no_nul(a);
    lemma_sorted_no_nul(b);
    let tag = "zccache-artifact"@;
    assert(no_nul(tag)) by {
        reveal_strlit("zccache-artifact");
    }
    assert(artifact_bytes(context_a, a) =~= field(tag) + (field(context_a) + pairs_bytes(p)));
    assert(artifact_bytes(context_b, b) =~= field(tag) + (field(context_b) + pairs_bytes(q)));
    lemma_field_cut(tag, tag, field(context_a) + pairs_bytes(p), field(context_b) + pairs_bytes(q));
    lemma_field_cut(context_a, context_b, pairs_bytes(p), pairs_bytes(q));
    lemma_pairs_determine(p, q);
}

/// Sorting brings no zero character in.
proof fn lemma_sorted_no_nul(a: Seq<(Seq<char>, Seq<char>)>)
    requires
        no_nul_pairs(a),
    ensures
        no_nul_pairs(sorted_of(a, pair_order())),
{
    let p = sorted_of(a, pair_order());
    lemma_pair_order();
    lemma_sorted_of(a, pair_order());
    assert forall|i: int| 0 <= i < p.len() implies no_nul((#[trigger] p[i]).0) && no_nul(p[i].1) by {
        lemma_same_items(a, p, p[i]);
        assert(p.contains(p[i]));
        let j = a.index_of(p[i]);
        assert(a[j] == p[i]);
    }
}

} // verus!
