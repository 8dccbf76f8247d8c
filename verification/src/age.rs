//! Picking what was used least recently.

use vstd::prelude::*;
use crate::order::{lemma_same_images, lemma_same_items, ordered, sort, Ranked};
use crate::text::views;

verus! {

/// Something with an age: when it was last used, and the text that names it.
pub struct Aged {
    /// When it was last used.
    pub at: u128,
    /// What it is called.
    pub name: String,
}

impl Ranked for Aged {
    open spec fn before(&self, other: &Aged) -> bool {
        self.at <= other.at
    }

    fn is_before(&self, other: &Aged) -> (yes: bool) {
        self.at <= other.at
    }

    proof fn lemma_total(&self, other: &Aged) {
    }

    proof fn lemma_transitive(&self, middle: &Aged, other: &Aged) {
    }
}

/// The smaller of two numbers.
pub open spec fn least(a: nat, b: nat) -> nat {
    if a <= b {
        a
    } else {
        b
    }
}

/// Whether `victims` are `count` of the named things, or all where there are fewer, none of them
/// used later than one that is left.
pub open spec fn oldest_of(ages: Map<Seq<char>, u128>, count: nat, victims: Set<Seq<char>>) -> bool {
    &&& victims.subset_of(ages.dom())
    &&& victims.finite()
    &&& victims.len() == least(count, ages.dom().len())
    &&& forall|v: Seq<char>, s: Seq<char>|
        #![trigger victims.contains(v), ages.contains_key(s)]
        victims.contains(v) && ages.contains_key(s) && !victims.contains(s) ==> ages[v] <= ages[s]
}

/// The names of a list of aged things.
pub open spec fn aged_names(list: Seq<Aged>) -> Seq<Seq<char>> {
    Seq::new(list.len(), |i: int| list[i].name@)
}

/// Whether `list` holds everything named in `ages` once, with its age.
pub open spec fn lists(list: Seq<Aged>, ages: Map<Seq<char>, u128>) -> bool {
    &&& aged_names(list).no_duplicates()
    &&& aged_names(list).to_set() == ages.dom()
    &&& forall|i: int| 0 <= i < list.len() ==> (#[trigger] list[i]).at == ages[list[i].name@]
}

/// Sorting loses nothing and doubles nothing.
proof fn lemma_sorted_lists(unsorted: Seq<Aged>, sorted: Seq<Aged>, ages: Map<Seq<char>, u128>)
    requires
        lists(unsorted, ages),
        sorted.to_multiset() == unsorted.to_multiset(),
    ensures
        lists(sorted, ages),
{
    let f = |a: Aged| a.name@;
    let names = aged_names(unsorted);
    lemma_same_images(unsorted, sorted, f);
    assert(unsorted.map_values(f) =~= names);
    assert(sorted.map_values(f) =~= aged_names(sorted));
    names.lemma_multiset_has_no_duplicates();
    aged_names(sorted).lemma_multiset_has_no_duplicates_conv();
    assert forall|x: Seq<char>| aged_names(sorted).to_set().contains(x) <==> names.to_set().contains(x) by {
        lemma_same_items(names, aged_names(sorted), x);
    }
    assert(aged_names(sorted).to_set() =~= ages.dom());
    assert forall|i: int| 0 <= i < sorted.len() implies (#[trigger] sorted[i]).at == ages[sorted[i].name@] by {
        lemma_same_items(unsorted, sorted, sorted[i]);
        assert(sorted.contains(sorted[i]));
        let k = unsorted.index_of(sorted[i]);
        assert(unsorted[k] == sorted[i]);
    }
}

/// The first of a list in order of age are the oldest.
proof fn lemma_first_are_oldest(sorted: Seq<Aged>, ages: Map<Seq<char>, u128>, count: nat, n: int)
    requires
        lists(sorted, ages),
        ordered(sorted),
        n == least(count, sorted.len()),
    ensures
        oldest_of(ages, count, aged_names(sorted).take(n).to_set()),
        aged_names(sorted).take(n).no_duplicates(),
{
    let names = aged_names(sorted);
    let head = names.take(n);
    let chosen = head.to_set();
    names.unique_seq_to_set();
    assert(head.no_duplicates());
    head.unique_seq_to_set();
    vstd::seq_lib::seq_to_set_is_finite(head);
    assert forall|x: Seq<char>| chosen.contains(x) implies ages.dom().contains(x) by {
        let i = head.index_of(x);
        assert(names[i] == x);
        assert(names.to_set().contains(x));
    }
    assert forall|v: Seq<char>, s: Seq<char>|
        #![trigger chosen.contains(v), ages.contains_key(s)]
        chosen.contains(v) && ages.contains_key(s) && !chosen.contains(s) implies ages[v] <= ages[s] by {
        let i = head.index_of(v);
        assert(names.to_set().contains(s));
        let j = names.index_of(s);
        if j < n {
            assert(head[j] == s);
        }
        assert(sorted[i].before(&sorted[j]));
        assert(sorted[i].name@ == v && sorted[j].name@ == s) by {
            assert(names[i] == head[i]);
            assert(names[j] == s);
        }
    }
}

/// The names of the `count` oldest items, or of all where there are fewer.
pub(crate) fn pick_oldest(items: Vec<Aged>, count: usize, Ghost(ages): Ghost<Map<Seq<char>, u128>>) -> (names: Vec<String>)
    requires
        lists(items@, ages),
    ensures
        oldest_of(ages, count as nat, views(names@).to_set()),
        views(names@).no_duplicates(),
{
    let ghost unsorted = items@;
    let sorted = sort(items);
    let n: usize = if count < sorted.len() {
        count
    } else {
        sorted.len()
    };
    let mut names: Vec<String> = Vec::new();
    let mut j: usize = 0;
    while j < n
        invariant
            j <= n <= sorted@.len(),
            names@.len() == j,
            forall|x: int| 0 <= x < j ==> (#[trigger] names@[x])@ == sorted@[x].name@,
        decreases n - j,
    {
        names.push(sorted[j].name.clone());
        j = j + 1;
    }
    proof {
        lemma_sorted_lists(unsorted, sorted@, ages);
        assert(views(names@) =~= aged_names(sorted@).take(n as int));
        lemma_first_are_oldest(sorted@, ages, count as nat, n as int);
    }
    names
}

} // verus!
