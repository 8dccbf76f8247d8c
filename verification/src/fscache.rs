//! What is remembered of files: their metadata, and when each was last seen to change.

use vstd::prelude::*;
use crate::age::{aged_names, lists, oldest_of, pick_oldest, Aged};
use crate::hash::ContentHash;
use crate::path::{path_views, NormalizedPath};
use crate::table::{remove_all, Table};
use crate::text::views;

verus! {

/// How far remembered metadata can be trusted.
#[derive(Clone, Copy, Debug, PartialEq, Eq, Structural)]
pub enum Confidence {
    /// Read from the file system.
    High,
    /// Inferred.
    Medium,
    /// To be read again.
    Low,
}

/// What is remembered of a file.
#[derive(Debug)]
pub struct FileMetadata {
    /// When it was last modified, in nanoseconds.
    pub mtime: u128,
    /// Its size in bytes.
    pub size: u64,
    /// How far this can be trusted.
    pub confidence: Confidence,
    /// When this was last read from the file system.
    pub last_verified: u128,
    /// The hash of its content.
    pub content_hash: Option<ContentHash>,
}

/// The remembered metadata, and a journal of changes by a logical clock.
pub struct CacheSystem {
    metadata: Table<FileMetadata>,
    last_change: Table<u64>,
    clock: u64,
}

/// What a [`CacheSystem`] holds.
pub struct CacheView {
    /// The metadata, by path.
    pub metadata: Map<Seq<char>, FileMetadata>,
    /// The clock at each file's last change, by path.
    pub journal: Map<Seq<char>, u64>,
    /// The clock.
    pub clock: u64,
}

impl View for CacheSystem {
    type V = CacheView;

    closed spec fn view(&self) -> CacheView {
        CacheView { metadata: self.metadata@, journal: self.last_change@, clock: self.clock }
    }
}

/// When each file's metadata was last read.
pub open spec fn verified_times(c: CacheView) -> Map<Seq<char>, u128> {
    Map::new(|k: Seq<char>| c.metadata.contains_key(k), |k: Seq<char>| c.metadata[k].last_verified)
}

/// The cache without these files.
pub open spec fn forgotten(c: CacheView, gone: Set<Seq<char>>) -> CacheView {
    CacheView { metadata: c.metadata.remove_keys(gone), journal: c.journal.remove_keys(gone), ..c }
}

/// The journal after the files changed at `clock`.
pub open spec fn noted(journal: Map<Seq<char>, u64>, paths: Seq<Seq<char>>, clock: u64) -> Map<Seq<char>, u64>
    decreases paths.len(),
{
    if paths.len() == 0 {
        journal
    } else {
        noted(journal, paths.drop_last(), clock).insert(paths.last(), clock)
    }
}

/// The journal after the files that it does not have were put under watch at `clock`.
pub open spec fn watched(journal: Map<Seq<char>, u64>, paths: Seq<Seq<char>>, clock: u64) -> Map<Seq<char>, u64>
    decreases paths.len(),
{
    if paths.len() == 0 {
        journal
    } else {
        let before = watched(journal, paths.drop_last(), clock);
        if before.contains_key(paths.last()) {
            before
        } else {
            before.insert(paths.last(), clock)
        }
    }
}

/// Whether a file may have changed after the clock stood at `since`: it did, or it is not known.
pub open spec fn changed_after(journal: Map<Seq<char>, u64>, path: Seq<char>, since: u64) -> bool {
    !journal.contains_key(path) || journal[path] > since
}

/// Whether no change is noted later than the clock stands.
pub open spec fn noted_in_time(c: CacheView) -> bool {
    forall|k: Seq<char>| #[trigger] c.journal.contains_key(k) ==> c.journal[k] <= c.clock
}

/// The next reading of the clock; at its end it stands still.
pub open spec fn ticked(clock: u64) -> u64 {
    if clock == u64::MAX {
        clock
    } else {
        (clock + 1) as u64
    }
}

/// Fewer notes and a later clock leave the notes in time.
proof fn lemma_noted_in_time(before: CacheView, after: CacheView)
    requires
        noted_in_time(before),
        after.journal.submap_of(before.journal),
        before.clock <= after.clock,
    ensures
        noted_in_time(after),
{
    assert forall|k: Seq<char>| #[trigger] after.journal.contains_key(k) implies after.journal[k] <= after.clock by {
        assert(after.journal.dom().contains(k));
        assert(before.journal.contains_key(k));
    }
}

/// A change noted at the clock is in time.
proof fn lemma_noted_now(before: CacheView, after: CacheView, path: Seq<char>)
    requires
        noted_in_time(before),
        after.journal == before.journal.insert(path, before.clock),
        after.clock == before.clock,
    ensures
        noted_in_time(after),
{
    assert forall|k: Seq<char>| #[trigger] after.journal.contains_key(k) implies after.journal[k] <= after.clock by {
        if k != path {
            assert(before.journal.contains_key(k));
        }
    }
}

impl CacheSystem {
    /// The tables are in order, and no change is noted later than the clock stands.
    pub closed spec fn wf(&self) -> bool {
        self.metadata.wf() && self.last_change.wf() && noted_in_time(self@)
    }

    /// Finitely many files are remembered.
    pub proof fn lemma_finite(&self)
        requires
            self.wf(),
        ensures
            self@.metadata.dom().finite(),
            self@.journal.dom().finite(),
            self@.metadata.dom().len() <= usize::MAX,
            self@.journal.dom().len() <= usize::MAX,
            noted_in_time(self@),
    {
        self.metadata.lemma_finite();
        self.last_change.lemma_finite();
    }

    /// Nothing is remembered yet.
    pub fn new() -> (cache: CacheSystem)
        ensures
            cache.wf(),
            cache@ == (CacheView { metadata: Map::empty(), journal: Map::empty(), clock: 0 }),
    {
        CacheSystem { metadata: Table::new(), last_change: Table::new(), clock: 0 }
    }

    /// Remembers what was read of a file.
    pub fn insert_metadata(&mut self, path: &NormalizedPath, metadata: FileMetadata)
        requires
            old(self).wf(),
        ensures
            final(self).wf(),
            final(self)@ == (CacheView { metadata: old(self)@.metadata.insert(path@, metadata), ..old(self)@ }),
    {
        self.metadata.insert(path.as_str().to_owned(), metadata);
        assert(self@.journal == old(self)@.journal);
    }

    /// The number of files with metadata.
    pub fn metadata_len(&self) -> (len: usize)
        requires
            self.wf(),
        ensures
            len == self@.metadata.dom().len(),
    {
        self.metadata.len()
    }

    /// The number of files in the journal.
    pub fn journal_len(&self) -> (len: usize)
        requires
            self.wf(),
        ensures
            len == self@.journal.dom().len(),
    {
        self.last_change.len()
    }

    /// The clock.
    pub fn current_clock(&self) -> (clock: u64)
        ensures
            clock == self@.clock,
    {
        self.clock
    }

    /// Notes that files changed.
    pub fn apply_changes(&mut self, paths: &[NormalizedPath])
        requires
            old(self).wf(),
        ensures
            final(self).wf(),
            final(self)@ == (CacheView {
                journal: noted(old(self)@.journal, path_views(paths@), ticked(old(self)@.clock)),
                clock: ticked(old(self)@.clock),
                ..old(self)@
            }),
    {
        if self.clock < u64::MAX {
            self.clock = self.clock + 1;
        }
        let clock = self.clock;
        let ghost start = self@;
        let ghost names = path_views(paths@);
        let mut i: usize = 0;
        assert(names.take(0) =~= Seq::<Seq<char>>::empty());
        proof {
            lemma_noted_in_time(old(self)@, start);
        }
        while i < paths.len()
            invariant
                i <= paths@.len(),
                names == path_views(paths@),
                self.wf(),
                clock == start.clock,
                self@ == (CacheView { journal: noted(start.journal, names.take(i as int), clock), ..start }),
            decreases paths@.len() - i,
        {
            assert(names.take(i + 1).drop_last() =~= names.take(i as int));
            assert(names.take(i + 1).last() == paths@[i as int]@);
            let ghost mid = self@;
            self.last_change.insert(paths[i].as_str().to_owned(), clock);
            proof {
                lemma_noted_now(mid, self@, paths@[i as int]@);
            }
            i = i + 1;
        }
        assert(names.take(names.len() as int) =~= names);
    }

    /// Puts files under watch, those that are not yet.
    pub fn register_tracked(&mut self, paths: &[NormalizedPath])
        requires
            old(self).wf(),
        ensures
            final(self).wf(),
            final(self)@ == (CacheView {
                journal: watched(old(self)@.journal, path_views(paths@), old(self)@.clock),
                ..old(self)@
            }),
    {
        let clock = self.clock;
        let ghost start = self@;
        let ghost names = path_views(paths@);
        let mut i: usize = 0;
        assert(names.take(0) =~= Seq::<Seq<char>>::empty());
        while i < paths.len()
            invariant
                i <= paths@.len(),
                names == path_views(paths@),
                self.wf(),
                clock == start.clock,
                self@ == (CacheView { journal: watched(start.journal, names.take(i as int), clock), ..start }),
            decreases paths@.len() - i,
        {
            assert(names.take(i + 1).drop_last() =~= names.take(i as int));
            assert(names.take(i + 1).last() == paths@[i as int]@);
            if !self.last_change.contains_key(paths[i].as_str()) {
                let ghost mid = self@;
                self.last_change.insert(paths[i].as_str().to_owned(), clock);
                proof {
                    lemma_noted_now(mid, self@, paths@[i as int]@);
                }
            }
            i = i + 1;
        }
        assert(names.take(names.len() as int) =~= names);
    }

    /// Whether a file may have changed after the clock stood at `since`.
    pub fn changed_since(&self, path: &NormalizedPath, since: u64) -> (changed: bool)
        requires
            self.wf(),
        ensures
            changed == changed_after(self@.journal, path@, since),
    {
        match self.last_change.get(path.as_str()) {
            Some(at) => *at > since,
            None => true,
        }
    }

    /// Forgets the `count` files whose metadata was read longest ago, or all where there are
    /// fewer. Returns how many entries of the metadata and of the journal went. Where several
    /// were read at the same moment, any of them may go first.
    pub fn evict_oldest(&mut self, count: usize) -> (removed: (usize, usize))
        requires
            old(self).wf(),
        ensures
            final(self).wf(),
            exists|victims: Set<Seq<char>>|
                {
                    &&& #[trigger] oldest_of(verified_times(old(self)@), count as nat, victims)
                    &&& final(self)@ == forgotten(old(self)@, victims)
                    &&& removed.0 == victims.len()
                    &&& removed.1 == old(self)@.journal.dom().intersect(victims).len()
                },
    {
        let keys = self.metadata.keys();
        let ghost names = views(keys@);
        let ghost start = self@;
        let mut by_age: Vec<Aged> = Vec::new();
        let mut i: usize = 0;
        while i < keys.len()
            invariant
                i <= keys@.len(),
                names == views(keys@),
                names.to_set() == start.metadata.dom(),
                self.wf(),
                start == self@,
                by_age@.len() == i,
                forall|j: int|
                    0 <= j < i ==> (#[trigger] by_age@[j]).name@ == names[j] && by_age@[j].at
                        == start.metadata[names[j]].last_verified,
            decreases keys@.len() - i,
        {
            assert(names.contains(names[i as int]));
            assert(names.to_set().contains(names[i as int]));
            if let Some(entry) = self.metadata.get(keys[i].as_str()) {
                by_age.push(Aged { at: entry.last_verified, name: keys[i].clone() });
            }
            i = i + 1;
        }
        proof {
            assert(verified_times(start).dom() =~= start.metadata.dom());
            assert(aged_names(by_age@) =~= names);
            assert(lists(by_age@, verified_times(start)));
        }
        let victims = pick_oldest(by_age, count, Ghost(verified_times(start)));
        let ghost chosen = views(victims@).to_set();
        assert(start.metadata.dom().intersect(chosen) =~= chosen);
        let files = remove_all(&mut self.metadata, &victims);
        let changes = remove_all(&mut self.last_change, &victims);
        proof {
            lemma_noted_in_time(start, self@);
        }
        assert(oldest_of(verified_times(start), count as nat, chosen));
        (files, changes)
    }
}

} // verus!
