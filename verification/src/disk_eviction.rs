//! Keeping the artifacts on disk within a budget.
//!
//! The files of an artifact are found by their names. Over budget, the artifacts used least
//! recently go, each with all its files, until usage is at nine tenths of the budget.

use vstd::prelude::*;
use crate::eviction::{nine_tenths, target_of, CachedArtifact};
use crate::graph::maintenance::invalidated;
use crate::graph::DepGraph;
use crate::order::{lemma_same_images, lemma_same_items, ordered, reversed, sort, Ranked};
use crate::table::{lemma_take_set, remove_all, Table};
use crate::text::{chars, last_at, lemma_last_at, strip_suffix, text_of, views, without_suffix};

verus! {

// ── The listing ─────────────────────────────────────────────────────────

/// A file of the artifact directory.
#[derive(Debug)]
pub struct DiskFile {
    /// Its name in the directory.
    pub name: String,
    /// Its size in bytes, 0 where it could not be read.
    pub size: u64,
    /// When it was last modified, in nanoseconds; 0 where that could not be read.
    pub mtime: u128,
}

/// An artifact kept in the staged layout.
#[derive(Debug)]
pub struct StagedArtifact {
    /// Its key.
    pub key: String,
    /// Its size in bytes.
    pub total_size: u64,
    /// When it was last modified, in nanoseconds.
    pub mtime: u128,
}

/// The key of the artifact that a file belongs to: its name up to `.meta` or `.pack`, or up to
/// the last `_` of a data file.
pub open spec fn artifact_stem(name: Seq<char>) -> Option<Seq<char>> {
    if without_suffix(name, ".meta"@) is Some {
        without_suffix(name, ".meta"@)
    } else if without_suffix(name, ".pack"@) is Some {
        without_suffix(name, ".pack"@)
    } else if last_at(name, '_') >= 0 {
        Some(name.take(last_at(name, '_')))
    } else {
        None
    }
}

/// The key of the artifact that a file belongs to.
pub fn artifact_key_stem(name: &str) -> (key: Option<String>)
    ensures
        crate::text::opt_view(key) == artifact_stem(name@),
{
    if let Some(stem) = strip_suffix(name, ".meta") {
        return Some(stem);
    }
    if let Some(stem) = strip_suffix(name, ".pack") {
        return Some(stem);
    }
    let letters = chars(name);
    let mut i: usize = letters.len();
    while i > 0 && letters[i - 1] != '_'
        invariant
            i <= letters@.len(),
            forall|j: int| i <= j < letters@.len() ==> letters@[j] != '_',
        decreases i,
    {
        i = i - 1;
    }
    proof {
        lemma_last_at(letters@, '_', i - 1);
    }
    if i == 0 {
        None
    } else {
        let stem = text_of(&letters, 0, i - 1);
        assert(stem@ =~= name@.take(i - 1));
        Some(stem)
    }
}

// ── Grouping ────────────────────────────────────────────────────────────

/// A size that stands still at the largest number.
pub open spec fn capped(n: nat) -> nat {
    if n <= u64::MAX {
        n
    } else {
        u64::MAX as nat
    }
}

/// The sum of two sizes.
fn capped_add(a: u64, b: u64) -> (sum: u64)
    ensures
        sum == capped((a + b) as nat),
{
    if a <= u64::MAX - b {
        a + b
    } else {
        u64::MAX
    }
}

/// The later of two times.
pub open spec fn later(a: u128, b: u128) -> u128 {
    if a >= b {
        a
    } else {
        b
    }
}

/// An artifact on disk: all that is found under its key.
pub struct GroupView {
    /// The bytes of all its files.
    pub size: nat,
    /// When its `.meta` file was modified, where it has one.
    pub meta: Option<u128>,
    /// When the latest of all else that it has was modified.
    pub latest: u128,
    /// The files, in the order of the listing.
    pub files: Seq<Seq<char>>,
    /// It is kept in the staged layout too.
    pub staged: bool,
}

/// Whether a file is the `.meta` file of an artifact.
pub open spec fn is_meta(name: Seq<char>) -> bool {
    ".meta"@.is_suffix_of(name)
}

/// The best guess at when an artifact was last used: when its `.meta` file was modified, and
/// where it has none, when the latest of what it has was.
pub open spec fn used_at(group: GroupView) -> u128 {
    match group.meta {
        Some(at) => at,
        None => group.latest,
    }
}

/// The artifact with one more file.
pub open spec fn with_file(group: GroupView, file: DiskFile) -> GroupView {
    GroupView {
        size: capped(group.size + file.size as nat),
        meta: if is_meta(file.name@) {
            Some(file.mtime)
        } else {
            group.meta
        },
        latest: if is_meta(file.name@) {
            group.latest
        } else {
            later(group.latest, file.mtime)
        },
        files: group.files.push(file.name@),
        staged: group.staged,
    }
}

/// The artifact with what is staged of it.
pub open spec fn with_staged(group: GroupView, item: StagedArtifact) -> GroupView {
    GroupView {
        size: capped(group.size + item.total_size as nat),
        latest: later(group.latest, item.mtime),
        staged: true,
        ..group
    }
}

/// What is found under `key` so far.
pub open spec fn group_at(groups: Map<Seq<char>, GroupView>, key: Seq<char>) -> GroupView {
    if groups.contains_key(key) {
        groups[key]
    } else {
        GroupView { size: 0, meta: None, latest: 0, files: Seq::empty(), staged: false }
    }
}

/// The artifacts that the files of a listing make up.
pub open spec fn file_groups(files: Seq<DiskFile>) -> Map<Seq<char>, GroupView>
    decreases files.len(),
{
    if files.len() == 0 {
        Map::empty()
    } else {
        let before = file_groups(files.drop_last());
        let file = files.last();
        match artifact_stem(file.name@) {
            Some(key) => before.insert(key, with_file(group_at(before, key), file)),
            None => before,
        }
    }
}

/// The artifacts on disk: those of the files, and the staged ones.
pub open spec fn disk_groups(files: Seq<DiskFile>, staged: Seq<StagedArtifact>) -> Map<Seq<char>, GroupView>
    decreases staged.len(),
{
    if staged.len() == 0 {
        file_groups(files)
    } else {
        let before = disk_groups(files, staged.drop_last());
        let item = staged.last();
        before.insert(item.key@, with_staged(group_at(before, item.key@), item))
    }
}

/// The bytes of the files that belong to some artifact.
pub open spec fn files_size(files: Seq<DiskFile>) -> nat
    decreases files.len(),
{
    if files.len() == 0 {
        0
    } else {
        files_size(files.drop_last()) + if artifact_stem(files.last().name@) is Some {
            files.last().size as nat
        } else {
            0
        }
    }
}

/// The bytes of the staged artifacts.
pub open spec fn staged_size(staged: Seq<StagedArtifact>) -> nat
    decreases staged.len(),
{
    if staged.len() == 0 {
        0
    } else {
        staged_size(staged.drop_last()) + staged.last().total_size as nat
    }
}

/// The bytes of all artifacts on disk.
pub open spec fn disk_usage(files: Seq<DiskFile>, staged: Seq<StagedArtifact>) -> nat {
    capped(files_size(files) + staged_size(staged))
}

/// An artifact on disk.
#[derive(Debug)]
pub struct DiskArtifact {
    key: String,
    total_size: u64,
    meta: Option<u128>,
    latest: u128,
    files: Vec<String>,
    staged: bool,
}

impl DiskArtifact {
    /// The best guess at when it was last used.
    fn last_used(&self) -> (at: u128)
        ensures
            at == used_at(self@),
    {
        match self.meta {
            Some(at) => at,
            None => self.latest,
        }
    }
}

impl View for DiskArtifact {
    type V = GroupView;

    closed spec fn view(&self) -> GroupView {
        GroupView {
            size: self.total_size as nat,
            meta: self.meta,
            latest: self.latest,
            files: views(self.files@),
            staged: self.staged,
        }
    }
}

impl Ranked for DiskArtifact {
    closed spec fn before(&self, other: &DiskArtifact) -> bool {
        used_at(self@) <= used_at(other@)
    }

    fn is_before(&self, other: &DiskArtifact) -> (yes: bool) {
        self.last_used() <= other.last_used()
    }

    proof fn lemma_total(&self, other: &DiskArtifact) {
    }

    proof fn lemma_transitive(&self, middle: &DiskArtifact, other: &DiskArtifact) {
    }
}

/// The artifacts of a table, by what is found of them.
spec fn table_groups(m: Map<Seq<char>, DiskArtifact>) -> Map<Seq<char>, GroupView> {
    Map::new(|k: Seq<char>| m.contains_key(k), |k: Seq<char>| m[k]@)
}

/// Whether each artifact of a table knows its key.
spec fn keyed(m: Map<Seq<char>, DiskArtifact>) -> bool {
    forall|k: Seq<char>| #[trigger] m.contains_key(k) ==> m[k].key@ == k
}

/// Makes sure that there is a group under `key`.
fn open_group(groups: &mut Table<DiskArtifact>, key: &str)
    requires
        old(groups).wf(),
        keyed(old(groups)@),
    ensures
        final(groups).wf(),
        keyed(final(groups)@),
        final(groups)@.contains_key(key@),
        table_groups(final(groups)@) == table_groups(old(groups)@).insert(
            key@,
            group_at(table_groups(old(groups)@), key@),
        ),
{
    if !groups.contains_key(key) {
        let group = DiskArtifact {
            key: key.to_owned(),
            total_size: 0,
            meta: None,
            latest: 0,
            files: Vec::new(),
            staged: false,
        };
        assert(group@.files =~= Seq::<Seq<char>>::empty());
        groups.insert(key.to_owned(), group);
    }
    assert(table_groups(groups@) =~= table_groups(old(groups)@).insert(
        key@,
        group_at(table_groups(old(groups)@), key@),
    ));
}

/// Groups the files of a listing. Returns the artifacts and the bytes of their files.
fn group_files(files: &[DiskFile]) -> (found: (Table<DiskArtifact>, u64))
    ensures
        found.0.wf(),
        keyed(found.0@),
        table_groups(found.0@) == file_groups(files@),
        found.1 == capped(files_size(files@)),
{
    let mut groups: Table<DiskArtifact> = Table::new();
    let mut total: u64 = 0;
    let mut i: usize = 0;
    assert(files@.take(0) =~= Seq::<DiskFile>::empty());
    assert(table_groups(groups@) =~= Map::<Seq<char>, GroupView>::empty());
    while i < files.len()
        invariant
            i <= files@.len(),
            groups.wf(),
            keyed(groups@),
            table_groups(groups@) == file_groups(files@.take(i as int)),
            total == capped(files_size(files@.take(i as int))),
        decreases files@.len() - i,
    {
        let file = &files[i];
        let ghost now = files@.take(i + 1);
        assert(now.drop_last() =~= files@.take(i as int));
        assert(now.last() == *file);
        if let Some(key) = artifact_key_stem(file.name.as_str()) {
            total = capped_add(total, file.size);
            let ghost before = table_groups(groups@);
            let ghost known = group_at(before, key@);
            let ghost added = with_file(known, *file);
            let meta = strip_suffix(file.name.as_str(), ".meta").is_some();
            open_group(&mut groups, key.as_str());
            let ghost opened = groups@;
            if let Some(group) = groups.get_mut(key.as_str()) {
                let ghost group0 = *group;
                group.total_size = capped_add(group.total_size, file.size);
                if meta {
                    group.meta = Some(file.mtime);
                } else if file.mtime > group.latest {
                    group.latest = file.mtime;
                }
                group.files.push(file.name.clone());
                proof {
                    assert(group0@ == table_groups(opened)[key@]);
                    assert(group@.files =~= group0@.files.push(file.name@));
                    assert(group@ == added);
                }
            }
            assert(table_groups(groups@) =~= table_groups(opened).insert(key@, added));
            assert(table_groups(groups@) =~= before.insert(key@, added));
        }
        i = i + 1;
    }
    assert(files@.take(files@.len() as int) =~= files@);
    (groups, total)
}

/// Adds the staged artifacts. Returns the artifacts and the bytes of all of them.
fn group_staged(groups: Table<DiskArtifact>, total: u64, staged: &[StagedArtifact], Ghost(files): Ghost<Seq<DiskFile>>) -> (found: (
    Table<DiskArtifact>,
    u64,
))
    requires
        groups.wf(),
        keyed(groups@),
        table_groups(groups@) == file_groups(files),
        total == capped(files_size(files)),
    ensures
        found.0.wf(),
        keyed(found.0@),
        table_groups(found.0@) == disk_groups(files, staged@),
        found.1 == disk_usage(files, staged@),
{
    let mut groups = groups;
    let mut total = total;
    let mut i: usize = 0;
    assert(staged@.take(0) =~= Seq::<StagedArtifact>::empty());
    while i < staged.len()
        invariant
            i <= staged@.len(),
            groups.wf(),
            keyed(groups@),
            table_groups(groups@) == disk_groups(files, staged@.take(i as int)),
            total == disk_usage(files, staged@.take(i as int)),
        decreases staged@.len() - i,
    {
        let item = &staged[i];
        let ghost now = staged@.take(i + 1);
        assert(now.drop_last() =~= staged@.take(i as int));
        assert(now.last() == *item);
        total = capped_add(total, item.total_size);
        let ghost before = table_groups(groups@);
        let ghost known = group_at(before, item.key@);
        let ghost added = with_staged(known, *item);
        open_group(&mut groups, item.key.as_str());
        let ghost opened = groups@;
        if let Some(group) = groups.get_mut(item.key.as_str()) {
            assert(group@ == table_groups(opened)[item.key@]);
            group.total_size = capped_add(group.total_size, item.total_size);
            if item.mtime > group.latest {
                group.latest = item.mtime;
            }
            group.staged = true;
            assert(group@ == added);
        }
        assert(table_groups(groups@) =~= table_groups(opened).insert(item.key@, added));
        assert(table_groups(groups@) =~= before.insert(item.key@, added));
        i = i + 1;
    }
    assert(staged@.take(staged@.len() as int) =~= staged@);
    (groups, total)
}

// ── Planning ────────────────────────────────────────────────────────────

/// The bytes of these artifacts.
pub open spec fn size_of_keys(groups: Map<Seq<char>, GroupView>, keys: Seq<Seq<char>>) -> nat
    decreases keys.len(),
{
    if keys.len() == 0 {
        0
    } else {
        size_of_keys(groups, keys.drop_last()) + groups[keys.last()].size
    }
}

/// The files of these artifacts.
pub open spec fn files_of_keys(groups: Map<Seq<char>, GroupView>, keys: Seq<Seq<char>>) -> Seq<Seq<char>>
    decreases keys.len(),
{
    if keys.len() == 0 {
        Seq::empty()
    } else {
        files_of_keys(groups, keys.drop_last()) + groups[keys.last()].files
    }
}

/// Those of these artifacts that are staged.
pub open spec fn staged_of_keys(groups: Map<Seq<char>, GroupView>, keys: Seq<Seq<char>>) -> Seq<Seq<char>>
    decreases keys.len(),
{
    if keys.len() == 0 {
        Seq::empty()
    } else {
        let before = staged_of_keys(groups, keys.drop_last());
        if groups[keys.last()].staged {
            before.push(keys.last())
        } else {
            before
        }
    }
}

/// Whether the artifacts `keys`, in this order, are the ones to go: the least recently used, each
/// once, oldest first; enough to free `to_free` bytes, or all; and not enough without the last.
pub open spec fn frees(groups: Map<Seq<char>, GroupView>, to_free: nat, keys: Seq<Seq<char>>) -> bool {
    &&& keys.no_duplicates()
    &&& forall|i: int| 0 <= i < keys.len() ==> groups.contains_key(#[trigger] keys[i])
    &&& forall|i: int, j: int|
        #![trigger keys[i], keys[j]]
        0 <= i < j < keys.len() ==> used_at(groups[keys[i]]) <= used_at(groups[keys[j]])
    &&& forall|i: int, k: Seq<char>|
        #![trigger keys[i], groups.contains_key(k)]
        0 <= i < keys.len() && groups.contains_key(k) && !keys.contains(k) ==> used_at(groups[keys[i]]) <= used_at(groups[k])
    &&& size_of_keys(groups, keys) >= to_free || keys.to_set() == groups.dom()
    &&& keys.len() > 0 ==> size_of_keys(groups, keys.drop_last()) < to_free
}

/// Whether the artifacts `keys` are the ones to go where artifacts may take `max` bytes.
pub open spec fn disk_plan(
    files: Seq<DiskFile>,
    staged: Seq<StagedArtifact>,
    max: nat,
    keys: Seq<Seq<char>>,
) -> bool {
    if disk_usage(files, staged) <= max {
        keys.len() == 0
    } else {
        frees(disk_groups(files, staged), (disk_usage(files, staged) - nine_tenths(max)) as nat, keys)
    }
}

/// What a disk eviction takes away.
#[derive(Debug)]
pub struct DiskEviction {
    /// The bytes freed.
    pub bytes_freed: u64,
    /// The artifacts removed.
    pub artifacts_removed: usize,
    /// Their keys, least recently used first.
    pub keys: Vec<String>,
    /// The files to delete, by name.
    pub files: Vec<String>,
    /// The keys to delete from the staged layout.
    pub staged_keys: Vec<String>,
}

/// The keys of a list of artifacts.
spec fn artifact_keys(list: Seq<DiskArtifact>) -> Seq<Seq<char>> {
    Seq::new(list.len(), |i: int| list[i].key@)
}

/// Whether `list` holds each artifact of `groups` once.
spec fn lists_groups(list: Seq<DiskArtifact>, groups: Map<Seq<char>, GroupView>) -> bool {
    &&& artifact_keys(list).no_duplicates()
    &&& artifact_keys(list).to_set() == groups.dom()
    &&& forall|i: int| 0 <= i < list.len() ==> (#[trigger] list[i])@ == groups[list[i].key@]
}

/// Takes the artifacts out of a table.
fn drain(groups: Table<DiskArtifact>) -> (list: Vec<DiskArtifact>)
    requires
        groups.wf(),
        keyed(groups@),
    ensures
        lists_groups(list@, table_groups(groups@)),
{
    let mut groups = groups;
    let keys = groups.keys();
    let ghost names = views(keys@);
    let ghost all = groups@;
    let mut list: Vec<DiskArtifact> = Vec::new();
    let mut i: usize = 0;
    assert(groups@ =~= all.remove_keys(names.take(0).to_set()));
    while i < keys.len()
        invariant
            i <= keys@.len(),
            names == views(keys@),
            names.no_duplicates(),
            names.to_set() == all.dom(),
            keyed(all),
            groups.wf(),
            groups@ == all.remove_keys(names.take(i as int).to_set()),
            list@.len() == i,
            forall|j: int| 0 <= j < i ==> (#[trigger] list@[j]) == all[names[j]],
        decreases keys@.len() - i,
    {
        proof {
            lemma_take_set(names, i as int);
            assert(names.contains(names[i as int]));
            assert(names.to_set().contains(names[i as int]));
            assert(!names.take(i as int).contains(names[i as int])) by {
                if names.take(i as int).contains(names[i as int]) {
                    let j = names.take(i as int).index_of(names[i as int]);
                    assert(names[j] == names[i as int]);
                }
            }
        }
        if let Some(group) = groups.remove(keys[i].as_str()) {
            list.push(group);
        }
        assert(groups@ =~= all.remove_keys(names.take(i + 1).to_set()));
        i = i + 1;
    }
    proof {
        assert forall|j: int| 0 <= j < names.len() implies artifact_keys(list@)[j] == names[j] by {
            assert(names.to_set().contains(names[j]));
            assert(all.contains_key(names[j]));
            assert(list@[j] == all[names[j]]);
        }
        assert(artifact_keys(list@) =~= names);
        assert(table_groups(all).dom() =~= all.dom());
        assert forall|j: int| 0 <= j < list@.len() implies (#[trigger] list@[j])@ == table_groups(all)[list@[j].key@] by {
            assert(artifact_keys(list@)[j] == names[j]);
            assert(names.to_set().contains(names[j]));
        }
    }
    list
}

/// Sorting the artifacts loses none and doubles none.
proof fn lemma_sorted_groups(unsorted: Seq<DiskArtifact>, sorted: Seq<DiskArtifact>, groups: Map<Seq<char>, GroupView>)
    requires
        lists_groups(unsorted, groups),
        sorted.to_multiset() == unsorted.to_multiset(),
    ensures
        lists_groups(sorted, groups),
{
    let f = |a: DiskArtifact| a.key@;
    let names = artifact_keys(unsorted);
    lemma_same_images(unsorted, sorted, f);
    assert(unsorted.map_values(f) =~= names);
    assert(sorted.map_values(f) =~= artifact_keys(sorted));
    names.lemma_multiset_has_no_duplicates();
    artifact_keys(sorted).lemma_multiset_has_no_duplicates_conv();
    assert forall|x: Seq<char>| artifact_keys(sorted).to_set().contains(x) <==> names.to_set().contains(x) by {
        lemma_same_items(names, artifact_keys(sorted), x);
    }
    assert(artifact_keys(sorted).to_set() =~= groups.dom());
    assert forall|i: int| 0 <= i < sorted.len() implies (#[trigger] sorted[i])@ == groups[sorted[i].key@] by {
        lemma_same_items(unsorted, sorted, sorted[i]);
        assert(sorted.contains(sorted[i]));
        let k = unsorted.index_of(sorted[i]);
        assert(unsorted[k] == sorted[i]);
    }
}

/// The first `n` of the artifacts in order of age are the ones to go where they, and not fewer,
/// free enough.
proof fn lemma_first_free(sorted: Seq<DiskArtifact>, groups: Map<Seq<char>, GroupView>, to_free: nat, n: int)
    requires
        lists_groups(sorted, groups),
        ordered(sorted),
        0 <= n <= sorted.len(),
        size_of_keys(groups, artifact_keys(sorted).take(n)) >= to_free || n == sorted.len(),
        n > 0 ==> size_of_keys(groups, artifact_keys(sorted).take(n - 1)) < to_free,
    ensures
        frees(groups, to_free, artifact_keys(sorted).take(n)),
{
    let names = artifact_keys(sorted);
    let head = names.take(n);
    assert forall|i: int| 0 <= i < head.len() implies groups.contains_key(#[trigger] head[i]) by {
        assert(names[i] == head[i]);
        assert(names.contains(names[i]));
        assert(names.to_set().contains(names[i]));
    }
    assert forall|i: int, j: int|
        #![trigger head[i], head[j]]
        0 <= i < j < head.len() implies used_at(groups[head[i]]) <= used_at(groups[head[j]]) by {
        assert(sorted[i].before(&sorted[j]));
        assert(sorted[i]@ == groups[sorted[i].key@]);
        assert(sorted[j]@ == groups[sorted[j].key@]);
    }
    assert forall|i: int, k: Seq<char>|
        #![trigger head[i], groups.contains_key(k)]
        0 <= i < head.len() && groups.contains_key(k) && !head.contains(k) implies used_at(groups[head[i]])
        <= used_at(groups[k]) by {
        assert(names.to_set().contains(k));
        let j = names.index_of(k);
        if j < n {
            assert(head[j] == k);
        }
        assert(sorted[i].before(&sorted[j]));
        assert(sorted[i]@ == groups[sorted[i].key@]);
        assert(sorted[j]@ == groups[sorted[j].key@]);
    }
    if n == sorted.len() {
        assert(head =~= names);
    }
    if n > 0 {
        assert(head.drop_last() =~= names.take(n - 1));
    }
}

/// Plans which artifacts go where artifacts may take `max_cache_size` bytes.
pub fn plan_disk_eviction(files: &[DiskFile], staged: &[StagedArtifact], max_cache_size: u64) -> (plan: DiskEviction)
    ensures
        disk_plan(files@, staged@, max_cache_size as nat, views(plan.keys@)),
        plan.artifacts_removed == plan.keys@.len(),
        plan.bytes_freed == capped(size_of_keys(disk_groups(files@, staged@), views(plan.keys@))),
        views(plan.files@) == files_of_keys(disk_groups(files@, staged@), views(plan.keys@)),
        views(plan.staged_keys@) == staged_of_keys(disk_groups(files@, staged@), views(plan.keys@)),
{
    let (file_table, file_bytes) = group_files(files);
    let (groups, total) = group_staged(file_table, file_bytes, staged, Ghost(files@));
    let ghost all = disk_groups(files@, staged@);
    let mut plan = DiskEviction {
        bytes_freed: 0,
        artifacts_removed: 0,
        keys: Vec::new(),
        files: Vec::new(),
        staged_keys: Vec::new(),
    };
    assert(views(plan.keys@) =~= Seq::<Seq<char>>::empty());
    assert(views(plan.files@) =~= Seq::<Seq<char>>::empty());
    assert(views(plan.staged_keys@) =~= Seq::<Seq<char>>::empty());
    if total <= max_cache_size {
        return plan;
    }
    let target = target_of(max_cache_size);
    let goal: u64 = total - target;
    let mut to_free: u64 = goal;
    let list = drain(groups);
    let ghost unsorted = list@;
    let sorted = sort(list);
    let ghost order = sorted@;
    let ghost names = artifact_keys(order);
    proof {
        lemma_sorted_groups(unsorted, order, all);
        assert(names.take(0) =~= Seq::<Seq<char>>::empty());
        assert(order.len() == sorted.len());
    }
    let mut rest = reversed(sorted);
    let mut n: usize = 0;
    while rest.len() > 0 && to_free > 0
        invariant
            rest@ == order.reverse().take(rest@.len() as int),
            rest@.len() + n == order.len(),
            order.len() <= usize::MAX,
            names == artifact_keys(order),
            lists_groups(order, all),
            goal > 0,
            to_free == crate::eviction::minus(goal as nat, size_of_keys(all, names.take(n as int))),
            n > 0 ==> size_of_keys(all, names.take(n - 1)) < goal,
            views(plan.keys@) == names.take(n as int),
            plan.artifacts_removed == n,
            plan.bytes_freed == capped(size_of_keys(all, names.take(n as int))),
            views(plan.files@) == files_of_keys(all, names.take(n as int)),
            views(plan.staged_keys@) == staged_of_keys(all, names.take(n as int)),
        decreases rest@.len(),
    {
        let ghost plan0 = plan;
        if let Some(artifact) = rest.pop() {
            proof {
                assert(artifact == order[n as int]);
                assert(rest@ =~= order.reverse().take(rest@.len() as int));
                assert(names.take(n + 1).drop_last() =~= names.take(n as int));
                assert(names.take(n + 1).last() == artifact.key@);
                assert(artifact@ == all[artifact.key@]);
            }
            plan.bytes_freed = capped_add(plan.bytes_freed, artifact.total_size);
            to_free = if to_free >= artifact.total_size {
                to_free - artifact.total_size
            } else {
                0
            };
            plan.artifacts_removed = plan.artifacts_removed + 1;
            let mut names_of_files = artifact.files;
            plan.files.append(&mut names_of_files);
            if artifact.staged {
                plan.staged_keys.push(artifact.key.clone());
                assert(views(plan.staged_keys@) =~= views(plan0.staged_keys@).push(artifact.key@));
            }
            plan.keys.push(artifact.key);
            proof {
                assert(views(plan.keys@) =~= views(plan0.keys@).push(artifact.key@));
                assert(views(plan.keys@) =~= names.take(n + 1));
                assert(views(plan.files@) =~= views(plan0.files@) + artifact@.files);
            }
            n = n + 1;
        }
    }
    proof {
        lemma_first_free(order, all, goal as nat, n as int);
    }
    plan
}

/// Plans which artifacts go, drops them from memory, and makes the dependency graph forget them,
/// so that no context leads to an artifact that is gone. The files are left to the caller.
pub fn evict_disk_artifacts(
    files: &[DiskFile],
    staged: &[StagedArtifact],
    artifacts: &mut Table<CachedArtifact>,
    max_cache_size: u64,
    dep_graph: Option<&mut DepGraph>,
) -> (plan: DiskEviction)
    requires
        old(artifacts).wf(),
        dep_graph matches Some(g) ==> g.wf(),
    ensures
        disk_plan(files@, staged@, max_cache_size as nat, views(plan.keys@)),
        plan.artifacts_removed == plan.keys@.len(),
        plan.bytes_freed == capped(size_of_keys(disk_groups(files@, staged@), views(plan.keys@))),
        views(plan.files@) == files_of_keys(disk_groups(files@, staged@), views(plan.keys@)),
        views(plan.staged_keys@) == staged_of_keys(disk_groups(files@, staged@), views(plan.keys@)),
        final(artifacts).wf(),
        final(artifacts)@ == old(artifacts)@.remove_keys(views(plan.keys@).to_set()),
        dep_graph matches Some(g) ==> final(g).wf() && final(g)@ == invalidated(g@, views(plan.keys@)),
{
    let plan = plan_disk_eviction(files, staged, max_cache_size);
    remove_all(artifacts, &plan.keys);
    if let Some(graph) = dep_graph {
        graph.invalidate_artifact_keys(&plan.keys);
    }
    plan
}

// ── Laws ────────────────────────────────────────────────────────────────

/// The files that belong to none of these artifacts.
pub open spec fn files_outside(files: Seq<DiskFile>, keys: Seq<Seq<char>>) -> Seq<DiskFile>
    decreases files.len(),
{
    if files.len() == 0 {
        files
    } else {
        let before = files_outside(files.drop_last(), keys);
        match artifact_stem(files.last().name@) {
            Some(key) => if keys.contains(key) {
                before
            } else {
                before.push(files.last())
            },
            None => before.push(files.last()),
        }
    }
}

/// The staged artifacts that are none of these.
pub open spec fn staged_outside(staged: Seq<StagedArtifact>, keys: Seq<Seq<char>>) -> Seq<StagedArtifact>
    decreases staged.len(),
{
    if staged.len() == 0 {
        staged
    } else {
        let before = staged_outside(staged.drop_last(), keys);
        if keys.contains(staged.last().key@) {
            before
        } else {
            before.push(staged.last())
        }
    }
}

/// The bytes found under these keys.
pub open spec fn size_at(groups: Map<Seq<char>, GroupView>, keys: Seq<Seq<char>>) -> nat
    decreases keys.len(),
{
    if keys.len() == 0 {
        0
    } else {
        size_at(groups, keys.drop_last()) + group_at(groups, keys.last()).size
    }
}

/// A change to one group shows once among distinct keys.
proof fn lemma_size_at_insert(groups: Map<Seq<char>, GroupView>, keys: Seq<Seq<char>>, k: Seq<char>, v: GroupView)
    requires
        keys.no_duplicates(),
    ensures
        size_at(groups.insert(k, v), keys) == size_at(groups, keys) + (if keys.contains(k) {
            v.size - group_at(groups, k).size
        } else {
            0
        }),
    decreases keys.len(),
{
    if keys.len() > 0 {
        let init = keys.drop_last();
        lemma_size_at_insert(groups, init, k, v);
        if keys.last() == k {
            assert(keys[keys.len() - 1] == k);
            assert(!init.contains(k)) by {
                if init.contains(k) {
                    let i = init.index_of(k);
                    assert(keys[i] == keys[keys.len() - 1]);
                }
            }
        } else {
            assert(keys.contains(k) == init.contains(k)) by {
                if keys.contains(k) {
                    let i = keys.index_of(k);
                    assert(init[i] == k);
                }
                if init.contains(k) {
                    let i = init.index_of(k);
                    assert(keys[i] == k);
                }
            }
        }
    }
}

/// What is found under some keys and what lies outside them is everything.
proof fn lemma_files_split(files: Seq<DiskFile>, keys: Seq<Seq<char>>)
    requires
        keys.no_duplicates(),
        files_size(files) <= u64::MAX,
    ensures
        size_at(file_groups(files), keys) + files_size(files_outside(files, keys)) == files_size(files),
    decreases files.len(),
{
    if files.len() == 0 {
        lemma_size_at_empty(keys);
    } else {
        let init = files.drop_last();
        let file = files.last();
        lemma_files_split(init, keys);
        let outside = files_outside(init, keys);
        assert(outside.push(file).drop_last() =~= outside);
        match artifact_stem(file.name@) {
            Some(key) => {
                let before = file_groups(init);
                let group = group_at(before, key);
                lemma_one_key(init, key);
                let v = with_file(group, file);
                assert(v.size == group.size + file.size);
                lemma_size_at_insert(before, keys, key, v);
            },
            None => {},
        }
    }
}

/// Nothing is found in no groups.
proof fn lemma_size_at_empty(keys: Seq<Seq<char>>)
    ensures
        size_at(Map::<Seq<char>, GroupView>::empty(), keys) == 0,
    decreases keys.len(),
{
    if keys.len() > 0 {
        lemma_size_at_empty(keys.drop_last());
    }
}

/// One artifact is no larger than all files.
proof fn lemma_one_key(files: Seq<DiskFile>, key: Seq<char>)
    requires
        files_size(files) <= u64::MAX,
    ensures
        group_at(file_groups(files), key).size <= files_size(files),
    decreases files.len(),
{
    if files.len() > 0 {
        lemma_one_key(files.drop_last(), key);
    }
}

/// One artifact is no larger than everything on disk.
proof fn lemma_one_staged_key(files: Seq<DiskFile>, staged: Seq<StagedArtifact>, key: Seq<char>)
    requires
        files_size(files) + staged_size(staged) <= u64::MAX,
    ensures
        group_at(disk_groups(files, staged), key).size <= files_size(files) + staged_size(staged),
    decreases staged.len(),
{
    if staged.len() > 0 {
        lemma_one_staged_key(files, staged.drop_last(), key);
    } else {
        lemma_one_key(files, key);
    }
}

/// What is found under some keys and what lies outside them is everything on disk.
pub(crate) proof fn lemma_disk_split(files: Seq<DiskFile>, staged: Seq<StagedArtifact>, keys: Seq<Seq<char>>)
    requires
        keys.no_duplicates(),
        files_size(files) + staged_size(staged) <= u64::MAX,
    ensures
        size_at(disk_groups(files, staged), keys) + files_size(files_outside(files, keys)) + staged_size(
            staged_outside(staged, keys),
        ) == files_size(files) + staged_size(staged),
    decreases staged.len(),
{
    if staged.len() == 0 {
        lemma_files_split(files, keys);
    } else {
        let init = staged.drop_last();
        let item = staged.last();
        lemma_disk_split(files, init, keys);
        let outside = staged_outside(init, keys);
        assert(outside.push(item).drop_last() =~= outside);
        let before = disk_groups(files, init);
        let group = group_at(before, item.key@);
        lemma_one_staged_key(files, init, item.key@);
        let v = with_staged(group, item);
        assert(v.size == group.size + item.total_size);
        lemma_size_at_insert(before, keys, item.key@, v);
    }
}

/// Known keys are counted either way.
pub(crate) proof fn lemma_size_at_known(groups: Map<Seq<char>, GroupView>, keys: Seq<Seq<char>>)
    requires
        forall|i: int| 0 <= i < keys.len() ==> groups.contains_key(#[trigger] keys[i]),
    ensures
        size_at(groups, keys) == size_of_keys(groups, keys),
    decreases keys.len(),
{
    if keys.len() > 0 {
        let init = keys.drop_last();
        assert forall|i: int| 0 <= i < init.len() implies groups.contains_key(#[trigger] init[i]) by {
            assert(init[i] == keys[i]);
        }
        lemma_size_at_known(groups, init);
        assert(groups.contains_key(keys[keys.len() - 1]));
    }
}

/// Every artifact of the listing is among the groups.
proof fn lemma_groups_cover(files: Seq<DiskFile>, staged: Seq<StagedArtifact>, keys: Seq<Seq<char>>)
    requires
        keys.to_set() == disk_groups(files, staged).dom(),
    ensures
        files_size(files_outside(files, keys)) == 0,
        staged_size(staged_outside(staged, keys)) == 0,
{
    assert forall|k: Seq<char>| disk_groups(files, staged).contains_key(k) implies keys.contains(k) by {
        assert(keys.to_set().contains(k));
    }
    lemma_staged_cover(files, staged, keys);
    lemma_grown(files, staged);
    lemma_file_cover(files, keys);
}

/// Staged artifacts only add groups.
proof fn lemma_grown(files: Seq<DiskFile>, staged: Seq<StagedArtifact>)
    ensures
        file_groups(files).dom().subset_of(disk_groups(files, staged).dom()),
    decreases staged.len(),
{
    if staged.len() > 0 {
        lemma_grown(files, staged.drop_last());
    }
}

/// Every staged artifact is among the groups.
proof fn lemma_staged_cover(files: Seq<DiskFile>, staged: Seq<StagedArtifact>, keys: Seq<Seq<char>>)
    requires
        forall|k: Seq<char>| #[trigger] disk_groups(files, staged).contains_key(k) ==> keys.contains(k),
    ensures
        staged_size(staged_outside(staged, keys)) == 0,
    decreases staged.len(),
{
    if staged.len() > 0 {
        let init = staged.drop_last();
        assert forall|k: Seq<char>| #[trigger] disk_groups(files, init).contains_key(k) implies keys.contains(k) by {
            assert(disk_groups(files, staged).contains_key(k));
        }
        lemma_staged_cover(files, init, keys);
        assert(disk_groups(files, staged).contains_key(staged.last().key@));
    }
}

/// Every file with a key is in some group.
proof fn lemma_file_cover(files: Seq<DiskFile>, keys: Seq<Seq<char>>)
    requires
        forall|k: Seq<char>| #[trigger] file_groups(files).contains_key(k) ==> keys.contains(k),
    ensures
        files_size(files_outside(files, keys)) == 0,
    decreases files.len(),
{
    if files.len() > 0 {
        let init = files.drop_last();
        assert forall|k: Seq<char>| #[trigger] file_groups(init).contains_key(k) implies keys.contains(k) by {
            assert(file_groups(files).contains_key(k));
        }
        lemma_file_cover(init, keys);
        let outside = files_outside(init, keys);
        assert(outside.push(files.last()).drop_last() =~= outside);
        match artifact_stem(files.last().name@) {
            Some(key) => {
                assert(file_groups(files).contains_key(key));
            },
            None => {},
        }
    }
}

/// Once the planned artifacts are gone, usage is at or below nine tenths of the budget; and
/// within the budget nothing goes.
pub proof fn lemma_disk_eviction_reaches_target(
    files: Seq<DiskFile>,
    staged: Seq<StagedArtifact>,
    max: nat,
    keys: Seq<Seq<char>>,
)
    requires
        files_size(files) + staged_size(staged) <= u64::MAX,
        disk_plan(files, staged, max, keys),
    ensures
        disk_usage(files, staged) <= max ==> keys.len() == 0,
        disk_usage(files, staged) > max ==> disk_usage(files_outside(files, keys), staged_outside(staged, keys))
            <= nine_tenths(max),
{
    if disk_usage(files, staged) > max {
        let groups = disk_groups(files, staged);
        lemma_disk_split(files, staged, keys);
        lemma_size_at_known(groups, keys);
        let to_free = (disk_usage(files, staged) - nine_tenths(max)) as nat;
        if size_of_keys(groups, keys) < to_free {
            lemma_groups_cover(files, staged, keys);
        }
    }
}

/// Every file of a group belongs to the artifact of the group, and every file that does is there.
proof fn lemma_group_files(files: Seq<DiskFile>, key: Seq<char>, name: Seq<char>)
    ensures
        group_at(file_groups(files), key).files.contains(name) <==> artifact_stem(name) == Some(key) && exists|i: int|
            0 <= i < files.len() && (#[trigger] files[i]).name@ == name,
    decreases files.len(),
{
    if files.len() > 0 {
        let init = files.drop_last();
        lemma_group_files(init, key, name);
        let before = group_at(file_groups(init), key).files;
        let now = group_at(file_groups(files), key).files;
        let last = files.last().name@;
        if artifact_stem(last) == Some(key) {
            assert(now =~= before.push(last));
            assert(now.contains(name) <==> before.contains(name) || name == last) by {
                assert(now[before.len() as int] == last);
                if before.contains(name) {
                    let i = before.index_of(name);
                    assert(now[i] == name);
                }
                if now.contains(name) && name != last {
                    let i = now.index_of(name);
                    assert(before[i] == name);
                }
            }
        } else {
            assert(now == before);
        }
        assert((exists|i: int| 0 <= i < files.len() && (#[trigger] files[i]).name@ == name) <==> name == last || exists|
            i: int,
        | 0 <= i < init.len() && (#[trigger] init[i]).name@ == name) by {
            assert(files[files.len() - 1].name@ == last);
            if exists|i: int| 0 <= i < files.len() && (#[trigger] files[i]).name@ == name {
                let i = choose|i: int| 0 <= i < files.len() && (#[trigger] files[i]).name@ == name;
                if i < init.len() {
                    assert(init[i].name@ == name);
                }
            }
            if exists|i: int| 0 <= i < init.len() && (#[trigger] init[i]).name@ == name {
                let i = choose|i: int| 0 <= i < init.len() && (#[trigger] init[i]).name@ == name;
                assert(files[i].name@ == name);
            }
        }
    }
}

/// Staged artifacts bring no files of the directory with them.
proof fn lemma_staged_adds_no_files(files: Seq<DiskFile>, staged: Seq<StagedArtifact>, key: Seq<char>)
    ensures
        group_at(disk_groups(files, staged), key).files == group_at(file_groups(files), key).files,
    decreases staged.len(),
{
    if staged.len() > 0 {
        lemma_staged_adds_no_files(files, staged.drop_last(), key);
    }
}

/// An artifact goes with all its files, and with no other: a listed file is deleted exactly where
/// the artifact that it belongs to goes.
pub proof fn lemma_artifacts_go_whole(files: Seq<DiskFile>, staged: Seq<StagedArtifact>, keys: Seq<Seq<char>>, at: int)
    requires
        0 <= at < files.len(),
        forall|i: int| 0 <= i < keys.len() ==> disk_groups(files, staged).contains_key(#[trigger] keys[i]),
    ensures
        files_of_keys(disk_groups(files, staged), keys).contains(files[at].name@) <==> (match artifact_stem(
            files[at].name@,
        ) {
            Some(key) => keys.contains(key),
            None => false,
        }),
    decreases keys.len(),
{
    let groups = disk_groups(files, staged);
    let name = files[at].name@;
    if keys.len() > 0 {
        let init = keys.drop_last();
        let key = keys.last();
        assert forall|i: int| 0 <= i < init.len() implies groups.contains_key(#[trigger] init[i]) by {
            assert(init[i] == keys[i]);
        }
        lemma_artifacts_go_whole(files, staged, init, at);
        lemma_staged_adds_no_files(files, staged, key);
        lemma_group_files(files, key, name);
        assert(groups.contains_key(keys[keys.len() - 1]));
        let a = files_of_keys(groups, init);
        let b = groups[key].files;
        assert((a + b).contains(name) <==> a.contains(name) || b.contains(name)) by {
            if a.contains(name) {
                let i = a.index_of(name);
                assert((a + b)[i] == name);
            }
            if b.contains(name) {
                let i = b.index_of(name);
                assert((a + b)[a.len() + i] == name);
            }
            if (a + b).contains(name) {
                let i = (a + b).index_of(name);
                if i < a.len() {
                    assert(a[i] == name);
                } else {
                    assert(b[i - a.len()] == name);
                }
            }
        }
        match artifact_stem(name) {
            Some(k) => {
                assert(keys.contains(k) <==> init.contains(k) || k == key) by {
                    if init.contains(k) {
                        let i = init.index_of(k);
                        assert(keys[i] == k);
                    }
                    assert(keys[keys.len() - 1] == key);
                    if keys.contains(k) && k != key {
                        let i = keys.index_of(k);
                        assert(init[i] == k);
                    }
                }
            },
            None => {},
        }
    }
}

} // verus!
