//! Total orders and sorting.

use vstd::prelude::*;
use vstd::relations::{antisymmetric, reflexive, sorted_by, strongly_connected, total_ordering, transitive};
use crate::text::{chars, pair_views, same_text, views};

verus! {

/// A type whose values stand in a total preorder.
pub trait Ranked: Sized {
    /// Whether `self` may stand before `other` in a sorted list.
    spec fn before(&self, other: &Self) -> bool;

    /// Decides [`Ranked::before`].
    fn is_before(&self, other: &Self) -> (yes: bool)
        ensures
            yes == self.before(other),
    ;

    /// Of two values one may stand before the other.
    proof fn lemma_total(&self, other: &Self)
        ensures
            self.before(other) || other.before(self),
    ;

    /// What stands before a value stands before all that follows the value.
    proof fn lemma_transitive(&self, middle: &Self, other: &Self)
        requires
            self.before(middle),
            middle.before(other),
        ensures
            self.before(other),
    ;
}

/// Whether each item of `s` may stand before every later one.
pub open spec fn ordered<T: Ranked>(s: Seq<T>) -> bool {
    forall|i: int, j: int| #![trigger s[i], s[j]] 0 <= i < j < s.len() ==> s[i].before(&s[j])
}

/// Whether each item of `s` may stand before every earlier one.
spec fn ordered_down<T: Ranked>(s: Seq<T>) -> bool {
    forall|i: int, j: int| #![trigger s[i], s[j]] 0 <= i < j < s.len() ==> s[j].before(&s[i])
}

/// Whether each item of `low` may stand before every item of `high`.
pub open spec fn all_before<T: Ranked>(low: Seq<T>, high: Seq<T>) -> bool {
    forall|i: int, j: int|
        #![trigger low[i], high[j]]
        0 <= i < low.len() && 0 <= j < high.len() ==> low[i].before(&high[j])
}

/// The items of `list` in reverse.
pub(crate) fn reversed<T>(list: Vec<T>) -> (back: Vec<T>)
    ensures
        back@ == list@.reverse(),
        back@.to_multiset() == list@.to_multiset(),
{
    let mut list = list;
    let ghost all = list@;
    let mut back: Vec<T> = Vec::new();
    proof {
        broadcast use vstd::seq_lib::group_to_multiset_ensures;
    }
    while list.len() > 0
        invariant
            list@ == all.take(list@.len() as int),
            list@.len() <= all.len(),
            back@.len() == all.len() - list@.len(),
            forall|i: int| 0 <= i < back@.len() ==> back@[i] == #[trigger] all.reverse()[i],
            list@.to_multiset().add(back@.to_multiset()) =~= all.to_multiset(),
        decreases list@.len(),
    {
        let ghost list0 = list@;
        let ghost back0 = back@;
        match list.pop() {
            Some(item) => {
                back.push(item);
                proof {
                    assert(list0 =~= list@.push(item));
                    list@.to_multiset_ensures();
                    back0.to_multiset_ensures();
                    assert(list0.to_multiset() =~= list@.to_multiset().insert(item));
                    assert(back@.to_multiset() =~= back0.to_multiset().insert(item));
                    assert(list@ =~= all.take(list@.len() as int));
                }
            },
            None => {},
        }
    }
    proof {
        assert(back@ =~= all.reverse());
        list@.to_multiset_ensures();
        assert(list@.to_multiset() =~= vstd::multiset::Multiset::<T>::empty());
        assert(back@.to_multiset() =~= all.to_multiset());
    }
    back
}

/// Merges two sorted lists.
fn merge<T: Ranked>(left: Vec<T>, right: Vec<T>) -> (merged: Vec<T>)
    requires
        ordered(left@),
        ordered(right@),
    ensures
        ordered(merged@),
        merged@.to_multiset() == left@.to_multiset().add(right@.to_multiset()),
{
    let mut left = left;
    let mut right = right;
    let ghost total = left@.to_multiset().add(right@.to_multiset());
    let mut down: Vec<T> = Vec::new();
    proof {
        down@.to_multiset_ensures();
        assert(down@.to_multiset() =~= vstd::multiset::Multiset::<T>::empty());
        assert(left@.to_multiset().add(right@.to_multiset()).add(down@.to_multiset()) =~= total);
    }
    while left.len() > 0 || right.len() > 0
        invariant
            ordered(left@),
            ordered(right@),
            ordered_down(down@),
            all_before(left@, down@),
            all_before(right@, down@),
            left@.to_multiset().add(right@.to_multiset()).add(down@.to_multiset()) =~= total,
        decreases left@.len() + right@.len(),
    {
        let ghost left0 = left@;
        let ghost right0 = right@;
        let ghost down0 = down@;
        let from_right = if left.len() == 0 {
            true
        } else if right.len() == 0 {
            false
        } else {
            proof {
                left@.last().lemma_total(&right@.last());
            }
            left[left.len() - 1].is_before(&right[right.len() - 1])
        };
        let next = if from_right {
            right.pop()
        } else {
            left.pop()
        };
        match next {
            Some(item) => {
                down.push(item);
                proof {
                    down0.to_multiset_ensures();
                    left@.to_multiset_ensures();
                    right@.to_multiset_ensures();
                    assert(down@.to_multiset() =~= down0.to_multiset().insert(item));
                    if from_right {
                        assert(right0 =~= right@.push(item));
                        assert(right0.to_multiset() =~= right@.to_multiset().insert(item));
                        assert forall|i: int| 0 <= i < left@.len() implies (#[trigger] left@[i]).before(&item) by {
                            if i < left@.len() - 1 {
                                left@[i].lemma_transitive(&left@.last(), &item);
                            }
                        }
                    } else {
                        assert(left0 =~= left@.push(item));
                        assert(left0.to_multiset() =~= left@.to_multiset().insert(item));
                        assert forall|i: int| 0 <= i < right@.len() implies (#[trigger] right@[i]).before(&item) by {
                            if i < right@.len() - 1 {
                                right@[i].lemma_transitive(&right@.last(), &item);
                            }
                        }
                    }
                    assert(left@.to_multiset().add(right@.to_multiset()).add(down@.to_multiset()) =~= total);
                }
            },
            None => {},
        }
    }
    proof {
        left@.to_multiset_ensures();
        right@.to_multiset_ensures();
        assert(left@.to_multiset() =~= vstd::multiset::Multiset::<T>::empty());
        assert(right@.to_multiset() =~= vstd::multiset::Multiset::<T>::empty());
        assert(down@.to_multiset() =~= total);
    }
    reversed(down)
}

/// Sorts `items`: the same items, each before every later one.
pub fn sort<T: Ranked>(items: Vec<T>) -> (sorted: Vec<T>)
    ensures
        sorted@.to_multiset() == items@.to_multiset(),
        ordered(sorted@),
        sorted@.len() == items@.len(),
    decreases items@.len(),
{
    let mut items = items;
    let ghost all = items@;
    let n: usize = items.len();
    if n < 2 {
        return items;
    }
    let tail = items.split_off(n / 2);
    proof {
        assert(all =~= items@ + tail@);
        vstd::seq_lib::lemma_multiset_commutative(items@, tail@);
    }
    let left = sort(items);
    let right = sort(tail);
    let sorted = merge(left, right);
    proof {
        sorted@.to_multiset_ensures();
        all.to_multiset_ensures();
    }
    sorted
}

/// Whether `s` holds as its items exactly those of `t`, in any order.
pub proof fn lemma_same_items<T>(s: Seq<T>, t: Seq<T>, x: T)
    requires
        s.to_multiset() == t.to_multiset(),
    ensures
        s.contains(x) == t.contains(x),
{
    s.to_multiset_ensures();
    t.to_multiset_ensures();
    assert(s.contains(x) == (s.to_multiset().count(x) > 0));
    assert(t.contains(x) == (t.to_multiset().count(x) > 0));
}

/// What is picked from a list is in the list and fits, and all that fits is picked.
pub proof fn lemma_picked<A>(s: Seq<A>, pick: spec_fn(A) -> bool, x: A)
    ensures
        s.filter(pick).contains(x) <==> s.contains(x) && pick(x),
    decreases s.len(),
{
    reveal(Seq::filter);
    if s.len() > 0 {
        let init = s.drop_last();
        lemma_picked(init, pick, x);
        let before = init.filter(pick);
        assert(s.contains(x) <==> init.contains(x) || x == s.last()) by {
            if init.contains(x) {
                assert(s[init.index_of(x)] == x);
            }
            assert(s[s.len() - 1] == s.last());
            if s.contains(x) && x != s.last() {
                assert(init[s.index_of(x)] == x);
            }
        }
        if pick(s.last()) {
            let now = before.push(s.last());
            assert(now.contains(x) <==> before.contains(x) || x == s.last()) by {
                if before.contains(x) {
                    assert(now[before.index_of(x)] == x);
                }
                assert(now[now.len() - 1] == s.last());
                if now.contains(x) && x != s.last() {
                    assert(before[now.index_of(x)] == x);
                }
            }
        }
    }
}

/// What holds the same items still does when each item is replaced by its image.
pub proof fn lemma_same_images<A, B>(s: Seq<A>, t: Seq<A>, f: spec_fn(A) -> B)
    requires
        s.to_multiset() == t.to_multiset(),
    ensures
        s.map_values(f).to_multiset() == t.map_values(f).to_multiset(),
    decreases s.len(),
{
    s.to_multiset_ensures();
    t.to_multiset_ensures();
    if s.len() == 0 {
        assert(s.map_values(f) =~= t.map_values(f));
    } else {
        let x = s.last();
        lemma_same_items(s, t, x);
        let i = t.index_of(x);
        let rest = t.remove(i);
        vstd::seq_lib::to_multiset_remove(t, i);
        vstd::seq_lib::to_multiset_remove(s, s.len() - 1);
        assert(s.remove(s.len() - 1) =~= s.drop_last());
        lemma_same_images(s.drop_last(), rest, f);
        assert(s.map_values(f) =~= s.drop_last().map_values(f).push(f(x)));
        assert(t.map_values(f).remove(i) =~= rest.map_values(f));
        vstd::seq_lib::to_multiset_build(s.drop_last().map_values(f), f(x));
        vstd::seq_lib::to_multiset_remove(t.map_values(f), i);
        t.map_values(f).to_multiset_ensures();
        assert(t.map_values(f)[i] == f(x));
        assert(t.map_values(f).contains(f(x)));
        assert(t.map_values(f).to_multiset() =~= rest.map_values(f).to_multiset().insert(f(x)));
    }
}

/// `s` with `x` put in before the items that stand after it.
pub open spec fn inserted<T>(s: Seq<T>, x: T, leq: spec_fn(T, T) -> bool) -> Seq<T>
    decreases s.len(),
{
    if s.len() == 0 || leq(s.last(), x) {
        s.push(x)
    } else {
        inserted(s.drop_last(), x, leq).push(s.last())
    }
}

/// The items of `s` in the order `leq`.
pub open spec fn sorted_of<T>(s: Seq<T>, leq: spec_fn(T, T) -> bool) -> Seq<T>
    decreases s.len(),
{
    if s.len() == 0 {
        s
    } else {
        inserted(sorted_of(s.drop_last(), leq), s.last(), leq)
    }
}

/// Insertion keeps a list sorted and adds the one item.
proof fn lemma_inserted<T>(s: Seq<T>, x: T, leq: spec_fn(T, T) -> bool)
    requires
        total_ordering(leq),
        sorted_by(s, leq),
    ensures
        sorted_by(inserted(s, x, leq), leq),
        inserted(s, x, leq).to_multiset() == s.to_multiset().insert(x),
        inserted(s, x, leq).len() == s.len() + 1,
    decreases s.len(),
{
    vstd::seq_lib::to_multiset_build(s, x);
    if s.len() == 0 {
    } else if leq(s.last(), x) {
        assert forall|i: int, j: int| 0 <= i < j < s.push(x).len() implies #[trigger] leq(s.push(x)[i], s.push(x)[j]) by {
            if j == s.len() && i < s.len() - 1 {
                assert(leq(s[i], s[s.len() - 1]));
            }
        }
    } else {
        let init = s.drop_last();
        assert(sorted_by(init, leq)) by {
            assert forall|i: int, j: int| 0 <= i < j < init.len() implies #[trigger] leq(init[i], init[j]) by {
                assert(leq(s[i], s[j]));
            }
        }
        lemma_inserted(init, x, leq);
        let t = inserted(init, x, leq);
        vstd::seq_lib::to_multiset_build(t, s.last());
        vstd::seq_lib::to_multiset_build(init, s.last());
        assert(init.push(s.last()) =~= s);
        assert(t.push(s.last()).to_multiset() =~= s.to_multiset().insert(x));
        assert(leq(x, s.last()));
        assert forall|i: int, j: int| 0 <= i < j < t.push(s.last()).len() implies #[trigger] leq(
            t.push(s.last())[i],
            t.push(s.last())[j],
        ) by {
            if j == t.len() {
                t.to_multiset_ensures();
                init.to_multiset_ensures();
                assert(t.contains(t[i]));
                assert(t.to_multiset().count(t[i]) > 0);
                if t[i] != x {
                    assert(init.to_multiset().count(t[i]) > 0);
                    assert(init.contains(t[i]));
                    let k = init.index_of(t[i]);
                    assert(leq(s[k], s[s.len() - 1]));
                }
            } else {
                assert(leq(t[i], t[j]));
            }
        }
    }
}

/// What [`sorted_of`] gives is sorted and holds the same items.
pub proof fn lemma_sorted_of<T>(s: Seq<T>, leq: spec_fn(T, T) -> bool)
    requires
        total_ordering(leq),
    ensures
        sorted_by(sorted_of(s, leq), leq),
        sorted_of(s, leq).to_multiset() == s.to_multiset(),
    decreases s.len(),
{
    if s.len() > 0 {
        lemma_sorted_of(s.drop_last(), leq);
        lemma_inserted(sorted_of(s.drop_last(), leq), s.last(), leq);
        vstd::seq_lib::to_multiset_build(s.drop_last(), s.last());
        assert(s.drop_last().push(s.last()) =~= s);
    }
}

/// A sorted list with the items of `s` is [`sorted_of`] of `s`.
pub proof fn lemma_sorted_is<T>(s: Seq<T>, t: Seq<T>, leq: spec_fn(T, T) -> bool)
    requires
        total_ordering(leq),
        sorted_by(t, leq),
        t.to_multiset() == s.to_multiset(),
    ensures
        t == sorted_of(s, leq),
{
    lemma_sorted_of(s, leq);
    vstd::seq_lib::lemma_sorted_unique(t, sorted_of(s, leq), leq);
}

/// The order in which items are listed does not show in the sorted list.
pub proof fn lemma_sorted_forgets_order<T>(s: Seq<T>, t: Seq<T>, leq: spec_fn(T, T) -> bool)
    requires
        total_ordering(leq),
        s.to_multiset() == t.to_multiset(),
    ensures
        sorted_of(s, leq) == sorted_of(t, leq),
{
    lemma_sorted_of(s, leq);
    lemma_sorted_is(t, sorted_of(s, leq), leq);
}

// ── Lexicographic order of texts ────────────────────────────────────────

/// The lexicographic order of character sequences.
pub open spec fn lex_le(a: Seq<char>, b: Seq<char>) -> bool
    decreases a.len(),
{
    if a.len() == 0 {
        true
    } else if b.len() == 0 {
        false
    } else if a[0] == b[0] {
        lex_le(a.drop_first(), b.drop_first())
    } else {
        a[0] < b[0]
    }
}

/// Of two texts one is not after the other.
pub proof fn lemma_lex_total(a: Seq<char>, b: Seq<char>)
    ensures
        lex_le(a, b) || lex_le(b, a),
    decreases a.len(),
{
    if a.len() > 0 && b.len() > 0 && a[0] == b[0] {
        lemma_lex_total(a.drop_first(), b.drop_first());
    }
}

/// The lexicographic order is transitive.
pub proof fn lemma_lex_transitive(a: Seq<char>, b: Seq<char>, c: Seq<char>)
    requires
        lex_le(a, b),
        lex_le(b, c),
    ensures
        lex_le(a, c),
    decreases a.len(),
{
    if a.len() > 0 && b.len() > 0 && c.len() > 0 && a[0] == b[0] && b[0] == c[0] {
        lemma_lex_transitive(a.drop_first(), b.drop_first(), c.drop_first());
    }
}

/// Two texts that are each not after the other are the same.
pub proof fn lemma_lex_antisymmetric(a: Seq<char>, b: Seq<char>)
    requires
        lex_le(a, b),
        lex_le(b, a),
    ensures
        a == b,
    decreases a.len(),
{
    if a.len() > 0 && b.len() > 0 {
        if a[0] == b[0] {
            lemma_lex_antisymmetric(a.drop_first(), b.drop_first());
            assert(a =~= seq![a[0]] + a.drop_first());
            assert(b =~= seq![b[0]] + b.drop_first());
        }
    } else {
        assert(a =~= b);
    }
}

/// Decides the lexicographic order.
pub fn text_le(a: &str, b: &str) -> (yes: bool)
    ensures
        yes == lex_le(a@, b@),
{
    let left = chars(a);
    let right = chars(b);
    let mut i: usize = 0;
    assert(left@.skip(0) =~= left@);
    assert(right@.skip(0) =~= right@);
    while i < left.len() && i < right.len() && left[i] == right[i]
        invariant
            i <= left@.len(),
            i <= right@.len(),
            lex_le(a@, b@) == lex_le(left@.skip(i as int), right@.skip(i as int)),
        decreases left@.len() - i,
    {
        assert(left@.skip(i as int).drop_first() =~= left@.skip(i + 1));
        assert(right@.skip(i as int).drop_first() =~= right@.skip(i + 1));
        i = i + 1;
    }
    if i == left.len() {
        true
    } else if i == right.len() {
        false
    } else {
        left[i] < right[i]
    }
}

impl Ranked for String {
    open spec fn before(&self, other: &String) -> bool {
        lex_le(self@, other@)
    }

    fn is_before(&self, other: &String) -> (yes: bool) {
        text_le(self.as_str(), other.as_str())
    }

    proof fn lemma_total(&self, other: &String) {
        lemma_lex_total(self@, other@);
    }

    proof fn lemma_transitive(&self, middle: &String, other: &String) {
        lemma_lex_transitive(self@, middle@, other@);
    }
}

/// The lexicographic order, as a relation.
pub open spec fn text_order() -> spec_fn(Seq<char>, Seq<char>) -> bool {
    |a: Seq<char>, b: Seq<char>| lex_le(a, b)
}

/// The lexicographic order is a total order.
pub proof fn lemma_text_order()
    ensures
        total_ordering(text_order()),
{
    let leq = text_order();
    assert(reflexive(leq)) by {
        assert forall|x: Seq<char>| #[trigger] leq(x, x) by {
            lemma_lex_total(x, x);
        }
    }
    assert(antisymmetric(leq)) by {
        assert forall|x: Seq<char>, y: Seq<char>| #[trigger] leq(x, y) && #[trigger] leq(y, x) implies x == y by {
            lemma_lex_antisymmetric(x, y);
        }
    }
    assert(transitive(leq)) by {
        assert forall|x: Seq<char>, y: Seq<char>, z: Seq<char>| #[trigger] leq(x, y) && #[trigger] leq(
            y,
            z,
        ) implies leq(x, z) by {
            lemma_lex_transitive(x, y, z);
        }
    }
    assert(strongly_connected(leq)) by {
        assert forall|x: Seq<char>, y: Seq<char>| #[trigger] leq(x, y) || #[trigger] leq(y, x) by {
            lemma_lex_total(x, y);
        }
    }
}

/// Sorts texts.
pub fn sort_texts(list: Vec<String>) -> (sorted: Vec<String>)
    ensures
        views(sorted@) == sorted_of(views(list@), text_order()),
{
    let ghost before = list@;
    let sorted = sort(list);
    proof {
        lemma_text_order();
        let f = |t: String| t@;
        lemma_same_images(before, sorted@, f);
        assert(before.map_values(f) =~= views(before));
        assert(sorted@.map_values(f) =~= views(sorted@));
        assert(sorted_by(views(sorted@), text_order())) by {
            assert forall|i: int, j: int| 0 <= i < j < views(sorted@).len() implies #[trigger] text_order()(
                views(sorted@)[i],
                views(sorted@)[j],
            ) by {
                assert(sorted@[i].before(&sorted@[j]));
            }
        }
        lemma_sorted_is(views(before), views(sorted@), text_order());
    }
    sorted
}

// ── Pairs of texts ──────────────────────────────────────────────────────

/// The order of pairs: by the first text, then by the second.
pub open spec fn pair_le(a: (Seq<char>, Seq<char>), b: (Seq<char>, Seq<char>)) -> bool {
    if a.0 == b.0 {
        lex_le(a.1, b.1)
    } else {
        lex_le(a.0, b.0)
    }
}

/// The order of pairs, as a relation.
pub open spec fn pair_order() -> spec_fn((Seq<char>, Seq<char>), (Seq<char>, Seq<char>)) -> bool {
    |a: (Seq<char>, Seq<char>), b: (Seq<char>, Seq<char>)| pair_le(a, b)
}

/// The order of pairs is transitive.
proof fn lemma_pair_transitive(a: (Seq<char>, Seq<char>), b: (Seq<char>, Seq<char>), c: (Seq<char>, Seq<char>))
    requires
        pair_le(a, b),
        pair_le(b, c),
    ensures
        pair_le(a, c),
{
    if a.0 == b.0 && b.0 == c.0 {
        lemma_lex_transitive(a.1, b.1, c.1);
    } else if a.0 != b.0 && b.0 != c.0 {
        lemma_lex_transitive(a.0, b.0, c.0);
        if a.0 == c.0 {
            lemma_lex_antisymmetric(a.0, b.0);
        }
    }
}

/// Two pairs that are each not after the other are the same.
proof fn lemma_pair_antisymmetric(a: (Seq<char>, Seq<char>), b: (Seq<char>, Seq<char>))
    requires
        pair_le(a, b),
        pair_le(b, a),
    ensures
        a == b,
{
    if a.0 == b.0 {
        lemma_lex_antisymmetric(a.1, b.1);
    } else {
        lemma_lex_antisymmetric(a.0, b.0);
    }
}

/// The order of pairs is a total order.
pub proof fn lemma_pair_order()
    ensures
        total_ordering(pair_order()),
{
    let leq = pair_order();
    assert(reflexive(leq)) by {
        assert forall|x: (Seq<char>, Seq<char>)| #[trigger] leq(x, x) by {
            lemma_lex_total(x.1, x.1);
        }
    }
    assert(antisymmetric(leq)) by {
        assert forall|x: (Seq<char>, Seq<char>), y: (Seq<char>, Seq<char>)| #[trigger] leq(x, y) && #[trigger] leq(
            y,
            x,
        ) implies x == y by {
            lemma_pair_antisymmetric(x, y);
        }
    }
    assert(transitive(leq)) by {
        assert forall|x: (Seq<char>, Seq<char>), y: (Seq<char>, Seq<char>), z: (Seq<char>, Seq<char>)| #[trigger]
            leq(x, y) && #[trigger] leq(y, z) implies leq(x, z) by {
            lemma_pair_transitive(x, y, z);
        }
    }
    assert(strongly_connected(leq)) by {
        assert forall|x: (Seq<char>, Seq<char>), y: (Seq<char>, Seq<char>)| #[trigger] leq(x, y) || #[trigger] leq(
            y,
            x,
        ) by {
            lemma_lex_total(x.0, y.0);
            lemma_lex_total(x.1, y.1);
        }
    }
}

impl Ranked for (String, String) {
    open spec fn before(&self, other: &(String, String)) -> bool {
        pair_le((self.0@, self.1@), (other.0@, other.1@))
    }

    fn is_before(&self, other: &(String, String)) -> (yes: bool) {
        if same_text(self.0.as_str(), other.0.as_str()) {
            text_le(self.1.as_str(), other.1.as_str())
        } else {
            text_le(self.0.as_str(), other.0.as_str())
        }
    }

    proof fn lemma_total(&self, other: &(String, String)) {
        lemma_lex_total(self.0@, other.0@);
        lemma_lex_total(self.1@, other.1@);
    }

    proof fn lemma_transitive(&self, middle: &(String, String), other: &(String, String)) {
        lemma_pair_transitive((self.0@, self.1@), (middle.0@, middle.1@), (other.0@, other.1@));
    }
}

/// Sorts pairs of texts.
pub fn sort_pairs(list: Vec<(String, String)>) -> (sorted: Vec<(String, String)>)
    ensures
        pair_views(sorted@) == sorted_of(pair_views(list@), pair_order()),
{
    let ghost before = list@;
    let sorted = sort(list);
    proof {
        lemma_pair_order();
        let f = |t: (String, String)| (t.0@, t.1@);
        lemma_same_images(before, sorted@, f);
        assert(before.map_values(f) =~= pair_views(before));
        assert(sorted@.map_values(f) =~= pair_views(sorted@));
        assert(sorted_by(pair_views(sorted@), pair_order())) by {
            assert forall|i: int, j: int| 0 <= i < j < pair_views(sorted@).len() implies #[trigger] pair_order()(
                pair_views(sorted@)[i],
                pair_views(sorted@)[j],
            ) by {
                assert(sorted@[i].before(&sorted@[j]));
            }
        }
        lemma_sorted_is(pair_views(before), pair_views(sorted@), pair_order());
    }
    sorted
}

} // verus!
