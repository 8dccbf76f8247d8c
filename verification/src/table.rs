//! A keyed table: a concurrent map from key text to a row number, and the rows
//! themselves in one dense vector.

use dashmap::DashMap;
use std::hash::RandomState;
use vstd::prelude::*;
use crate::text::views;

verus! {

/// `dashmap::DashMap`, opaque.
#[verifier::external_type_specification]
#[verifier::external_body]
#[verifier::reject_recursive_types(K)]
#[verifier::reject_recursive_types(V)]
#[verifier::reject_recursive_types(S)]
pub struct ExDashMap<K, V, S>(DashMap<K, V, S>);

/// What a row index holds: for each key text, the row number stored under it.
pub uninterp spec fn index_contents(index: DashMap<String, usize, RandomState>) -> Map<Seq<char>, usize>;

/// `DashMap::new`: the new map is empty.
#[verifier::external_body]
fn index_new() -> (index: DashMap<String, usize, RandomState>)
    ensures
        (index_contents(index) == Map::<Seq<char>, usize>::empty()),
{
    DashMap::new()
}

/// `DashMap::insert`: stores `row` under `key`, in place of whatever was there, and hands
/// back what was there.
#[verifier::external_body]
fn index_insert(index: &mut DashMap<String, usize, RandomState>, key: String, row: usize) -> (previous: Option<usize>)
    ensures
        index_contents(*final(index)) == index_contents(*old(index)).insert(key@, row),
        previous == index_contents(*old(index)).get(key@),
{
    index.insert(key, row)
}

/// `DashMap::remove`: takes the entry of `key` out and hands its row number back.
#[verifier::external_body]
fn index_remove(index: &mut DashMap<String, usize, RandomState>, key: &str) -> (row: Option<usize>)
    ensures
        index_contents(*final(index)) == index_contents(*old(index)).remove(key@),
        row == index_contents(*old(index)).get(key@),
{
    index.remove(key).map(|entry| entry.1)
}

/// `DashMap::get`: the row number stored under `key`.
#[verifier::external_body]
fn index_get(index: &DashMap<String, usize, RandomState>, key: &str) -> (row: Option<usize>)
    ensures
        row == index_contents(*index).get(key@),
{
    index.get(key).map(|entry| *entry.value())
}

/// `DashMap::len`: the number of keys.
#[verifier::external_body]
fn index_len(index: &DashMap<String, usize, RandomState>) -> (len: usize)
    ensures
        len == index_contents(*index).dom().len(),
{
    index.len()
}

/// `DashMap::iter`: every stored key comes out once, in no promised order.
#[verifier::external_body]
fn index_keys(index: &DashMap<String, usize, RandomState>) -> (keys: Vec<String>)
    ensures
        views(keys@).no_duplicates(),
        views(keys@).to_set() == index_contents(*index).dom(),
{
    index.iter().map(|entry| entry.key().clone()).collect()
}

/// `DashMap::clear`: nothing is left.
#[verifier::external_body]
fn index_clear(index: &mut DashMap<String, usize, RandomState>)
    ensures
        (index_contents(*final(index)) == Map::<Seq<char>, usize>::empty()),
{
    index.clear()
}

/// One row: a value and the key it is stored under.
pub struct Row<T> {
    key: String,
    value: T,
}

/// Values found by their key text. The view is the map from key text to value.
pub struct Table<T> {
    index: DashMap<String, usize, RandomState>,
    rows: Vec<Row<T>>,
}

impl<T> View for Table<T> {
    type V = Map<Seq<char>, T>;

    closed spec fn view(&self) -> Map<Seq<char>, T> {
        Map::new(
            |k: Seq<char>| index_contents(self.index).contains_key(k),
            |k: Seq<char>| self.rows@[index_contents(self.index)[k] as int].value,
        )
    }
}

impl<T> Table<T> {
    /// The index and the rows agree: each key leads to the row that carries it, and each
    /// row is found under its key.
    pub closed spec fn wf(&self) -> bool {
        let index = index_contents(self.index);
        &&& forall|k: Seq<char>| #[trigger] index.contains_key(k) ==> {
            &&& index[k] < self.rows@.len()
            &&& self.rows@[index[k] as int].key@ == k
        }
        &&& forall|i: int|
            0 <= i < self.rows@.len() ==> {
                &&& index.contains_key((#[trigger] self.rows@[i]).key@)
                &&& index[self.rows@[i].key@] == i
            }
    }

    spec fn row_keys(&self) -> Seq<Seq<char>> {
        Seq::new(self.rows@.len(), |i: int| self.rows@[i].key@)
    }

    /// A table has finitely many keys, as many as it has rows.
    pub proof fn lemma_finite(&self)
        requires
            self.wf(),
        ensures
            self@.dom().finite(),
            self@.dom().len() <= usize::MAX,
    {
        let keys = self.row_keys();
        assert forall|i: int, j: int| 0 <= i < keys.len() && 0 <= j < keys.len() && i != j implies keys[i] != keys[j] by {
            assert(index_contents(self.index)[self.rows@[i].key@] == i);
            assert(index_contents(self.index)[self.rows@[j].key@] == j);
        }
        keys.unique_seq_to_set();
        assert(keys.to_set() =~= self@.dom()) by {
            assert forall|k: Seq<char>| self@.dom().contains(k) implies keys.to_set().contains(k) by {
                let i = index_contents(self.index)[k] as int;
                assert(keys[i] == k);
            }
        }
        vstd::seq_lib::seq_to_set_is_finite(keys);
        assert(self.rows@.len() == self.rows.len());
    }

    /// A table without entries.
    pub fn new() -> (table: Self)
        ensures
            table.wf(),
            table@ == Map::<Seq<char>, T>::empty(),
    {
        let table = Table { index: index_new(), rows: Vec::new() };
        assert(table@ =~= Map::<Seq<char>, T>::empty());
        table
    }

    /// The number of entries.
    pub fn len(&self) -> (len: usize)
        requires
            self.wf(),
        ensures
            len == self@.dom().len(),
    {
        assert(self@.dom() =~= index_contents(self.index).dom());
        index_len(&self.index)
    }

    /// Whether there is no entry.
    pub fn is_empty(&self) -> (empty: bool)
        requires
            self.wf(),
        ensures
            empty == (self@ == Map::<Seq<char>, T>::empty()),
    {
        proof {
            self.lemma_finite();
            if self@.dom().len() == 0 {
                self@.dom().lemma_len0_is_empty();
                assert(self@ =~= Map::<Seq<char>, T>::empty());
            }
        }
        self.len() == 0
    }

    /// The value stored under `key`.
    pub fn get(&self, key: &str) -> (value: Option<&T>)
        requires
            self.wf(),
        ensures
            value == (if self@.contains_key(key@) {
                Some(&self@[key@])
            } else {
                None
            }),
    {
        match index_get(&self.index, key) {
            Some(row) => Some(&self.rows[row].value),
            None => None,
        }
    }

    /// Whether something is stored under `key`.
    pub fn contains_key(&self, key: &str) -> (yes: bool)
        requires
            self.wf(),
        ensures
            yes == self@.contains_key(key@),
    {
        index_get(&self.index, key).is_some()
    }

    /// The value stored under `key`, to be changed in place.
    pub fn get_mut(&mut self, key: &str) -> (value: Option<&mut T>)
        requires
            old(self).wf(),
        ensures
            final(self).wf(),
            match value {
                Some(v) => {
                    &&& old(self)@.contains_key(key@)
                    &&& *v == old(self)@[key@]
                    &&& final(self)@ == old(self)@.insert(key@, *final(v))
                },
                None => {
                    &&& !old(self)@.contains_key(key@)
                    &&& final(self)@ == old(self)@
                },
            },
    {
        match index_get(&self.index, key) {
            Some(row) => Some(&mut self.rows[row].value),
            None => None,
        }
    }

    /// Stores `value` under `key`, in place of whatever was there, and hands back what was
    /// there.
    pub fn insert(&mut self, key: String, value: T) -> (previous: Option<T>)
        requires
            old(self).wf(),
        ensures
            final(self).wf(),
            final(self)@ == old(self)@.insert(key@, value),
            previous == (if old(self)@.contains_key(key@) {
                Some(old(self)@[key@])
            } else {
                None
            }),
    {
        let row = Row { key: key.clone(), value };
        match index_get(&self.index, key.as_str()) {
            Some(at) => {
                self.rows.push(row);
                let previous = self.rows.swap_remove(at);
                proof {
                    assert(self.rows@ =~= old(self).rows@.update(at as int, row));
                    assert(self@ =~= old(self)@.insert(key@, value));
                }
                Some(previous.value)
            },
            None => {
                let at = self.rows.len();
                self.rows.push(row);
                index_insert(&mut self.index, key, at);
                assert(self@ =~= old(self)@.insert(key@, value)) by {
                    assert forall|k: Seq<char>| old(self)@.contains_key(k) implies self@[k] == old(self)@[k] by {
                        assert(index_contents(old(self).index)[k] < at);
                    }
                }
                None
            },
        }
    }

    /// Takes the entry of `key` out and hands its value back.
    pub fn remove(&mut self, key: &str) -> (value: Option<T>)
        requires
            old(self).wf(),
        ensures
            final(self).wf(),
            final(self)@ == old(self)@.remove(key@),
            value == (if old(self)@.contains_key(key@) {
                Some(old(self)@[key@])
            } else {
                None
            }),
    {
        match index_remove(&mut self.index, key) {
            Some(at) => {
                let last: usize = self.rows.len() - 1;
                let removed = self.rows.swap_remove(at);
                if at < last {
                    let moved = self.rows[at].key.clone();
                    assert(old(self).rows@[last as int].key@ == moved@);
                    index_insert(&mut self.index, moved, at);
                }
                assert(self@ =~= old(self)@.remove(key@));
                Some(removed.value)
            },
            None => {
                assert(self@ =~= old(self)@.remove(key@));
                None
            },
        }
    }

    /// Every key once, in no particular order.
    pub fn keys(&self) -> (keys: Vec<String>)
        requires
            self.wf(),
        ensures
            views(keys@).no_duplicates(),
            views(keys@).to_set() == self@.dom(),
    {
        assert(self@.dom() =~= index_contents(self.index).dom());
        index_keys(&self.index)
    }

    /// Drops every entry.
    pub fn clear(&mut self)
        requires
            old(self).wf(),
        ensures
            final(self).wf(),
            final(self)@ == Map::<Seq<char>, T>::empty(),
    {
        index_clear(&mut self.index);
        self.rows.clear();
        assert(self@ =~= Map::<Seq<char>, T>::empty());
    }
}

/// Takes out of `table` every entry whose key `live` does not have.
pub fn retain_keys<T, U>(table: &mut Table<T>, live: &Table<U>)
    requires
        old(table).wf(),
        live.wf(),
    ensures
        final(table).wf(),
        final(table)@ == old(table)@.restrict(live@.dom()),
{
    let keys = table.keys();
    let ghost names = views(keys@);
    let ghost start = table@;
    let mut i: usize = 0;
    while i < keys.len()
        invariant
            i <= keys@.len(),
            names == views(keys@),
            names.to_set() == start.dom(),
            table.wf(),
            live.wf(),
            forall|k: Seq<char>|
                #[trigger] table@.contains_key(k) <==> start.contains_key(k) && (live@.contains_key(k)
                    || !names.take(i as int).contains(k)),
            forall|k: Seq<char>| #[trigger] table@.contains_key(k) ==> table@[k] == start[k],
        decreases keys@.len() - i,
    {
        let key = keys[i].as_str();
        assert(names.take(i + 1) =~= names.take(i as int).push(key@));
        assert forall|k: Seq<char>| names.take(i + 1).contains(k) <==> names.take(i as int).contains(k) || k == key@ by {
            let before = names.take(i as int);
            assert(before.push(key@)[i as int] == key@);
            if before.contains(k) {
                let j = before.index_of(k);
                assert(before.push(key@)[j] == k);
            }
            if before.push(key@).contains(k) && k != key@ {
                let j = before.push(key@).index_of(k);
                assert(before[j] == k);
            }
        }
        if !live.contains_key(key) {
            table.remove(key);
        }
        i = i + 1;
    }
    proof {
        assert(names.take(names.len() as int) =~= names);
        assert forall|k: Seq<char>| #[trigger] start.contains_key(k) implies names.contains(k) by {
            assert(names.to_set().contains(k));
        }
        assert(table@ =~= start.restrict(live@.dom()));
    }
}

/// Picking from a list without duplicates is picking from the set of its items.
pub proof fn lemma_filter_count<K>(keys: Seq<K>, pick: spec_fn(K) -> bool)
    requires
        keys.no_duplicates(),
    ensures
        keys.filter(pick).to_set() == keys.to_set().filter(pick),
        keys.filter(pick).len() == keys.to_set().filter(pick).len(),
        keys.filter(pick).no_duplicates(),
    decreases keys.len(),
{
    reveal(Seq::filter);
    if keys.len() == 0 {
        assert(keys.filter(pick).to_set() =~= keys.to_set().filter(pick));
        assert(keys.to_set().filter(pick) =~= Set::<K>::empty());
    } else {
        let init = keys.drop_last();
        let last = keys.last();
        lemma_filter_count(init, pick);
        assert(keys.filter(pick) == if pick(last) {
            init.filter(pick).push(last)
        } else {
            init.filter(pick)
        });
        assert(!init.contains(last));
        assert(!init.to_set().contains(last));
        assert(keys.to_set() =~= init.to_set().insert(last)) by {
            assert forall|x: K| keys.to_set().contains(x) <==> init.to_set().insert(last).contains(x) by {
                if keys.contains(x) && x != last {
                    let i = keys.index_of(x);
                    assert(init[i] == x);
                }
                if init.contains(x) {
                    let i = init.index_of(x);
                    assert(keys[i] == x);
                }
                assert(keys[keys.len() - 1] == last);
            }
        }
        vstd::seq_lib::seq_to_set_is_finite(init);
        if pick(last) {
            assert(keys.to_set().filter(pick) =~= init.to_set().filter(pick).insert(last));
            assert(keys.filter(pick).to_set() =~= init.filter(pick).to_set().insert(last)) by {
                let a = init.filter(pick);
                assert forall|x: K| a.push(last).to_set().contains(x) <==> a.to_set().insert(last).contains(x) by {
                    if a.contains(x) {
                        let i = a.index_of(x);
                        assert(a.push(last)[i] == x);
                    }
                    assert(a.push(last)[a.len() as int] == last);
                    if a.push(last).contains(x) && x != last {
                        let i = a.push(last).index_of(x);
                        assert(a[i] == x);
                    }
                }
            }
            assert(!init.filter(pick).contains(last)) by {
                if init.filter(pick).contains(last) {
                    assert(init.filter(pick).to_set().contains(last));
                }
            }
        } else {
            assert(keys.to_set().filter(pick) =~= init.to_set().filter(pick));
        }
    }
}

/// The set of the first `i + 1` items is that of the first `i` and the next one.
pub proof fn lemma_take_set<A>(s: Seq<A>, i: int)
    requires
        0 <= i < s.len(),
    ensures
        s.take(i + 1).to_set() == s.take(i).to_set().insert(s[i]),
{
    let a = s.take(i).to_set().insert(s[i]);
    let b = s.take(i + 1).to_set();
    assert forall|x: A| a.contains(x) <==> b.contains(x) by {
        if s.take(i).contains(x) {
            let j = s.take(i).index_of(x);
            assert(s.take(i + 1)[j] == x);
        }
        assert(s.take(i + 1)[i] == s[i]);
        if s.take(i + 1).contains(x) && x != s[i] {
            let j = s.take(i + 1).index_of(x);
            assert(s.take(i)[j] == x);
        }
    }
    assert(a =~= b);
}

/// Takes the entries of `keys` out. Returns how many of them were there.
pub fn remove_all<T>(table: &mut Table<T>, keys: &[String]) -> (removed: usize)
    requires
        old(table).wf(),
    ensures
        final(table).wf(),
        final(table)@ == old(table)@.remove_keys(views(keys@).to_set()),
        removed == old(table)@.dom().intersect(views(keys@).to_set()).len(),
{
    let ghost names = views(keys@);
    let ghost start = table@;
    let ghost dom = start.dom();
    let mut removed: usize = 0;
    let mut i: usize = 0;
    proof {
        table.lemma_finite();
        assert(dom.intersect(names.take(0).to_set()) =~= Set::<Seq<char>>::empty());
        assert(table@ =~= start.remove_keys(names.take(0).to_set()));
    }
    while i < keys.len()
        invariant
            i <= keys@.len(),
            names == views(keys@),
            dom == start.dom(),
            dom.finite(),
            dom.len() <= usize::MAX,
            table.wf(),
            table@ == start.remove_keys(names.take(i as int).to_set()),
            removed == dom.intersect(names.take(i as int).to_set()).len(),
        decreases keys@.len() - i,
    {
        let ghost before = names.take(i as int).to_set();
        let ghost now = names.take(i + 1).to_set();
        let key = keys[i].as_str();
        proof {
            lemma_take_set(names, i as int);
            assert(now =~= before.insert(key@));
        }
        let gone = table.remove(key).is_some();
        proof {
            assert(table@ =~= start.remove_keys(now));
            vstd::set_lib::lemma_len_subset(dom.intersect(before), dom);
            vstd::set_lib::lemma_len_subset(dom.intersect(now), dom);
            if gone {
                assert(dom.intersect(now) =~= dom.intersect(before).insert(key@));
            } else {
                assert(dom.intersect(now) =~= dom.intersect(before));
            }
        }
        if gone {
            removed = removed + 1;
        }
        i = i + 1;
    }
    assert(names.take(names.len() as int) =~= names);
    removed
}

} // verus!
