//! What a look at the file system found.

use vstd::prelude::*;
use crate::text::same_text;

verus! {

/// What stands at a path.
#[derive(Clone, Copy, Debug, PartialEq, Eq, Structural)]
pub enum FileKind {
    /// Nothing.
    Missing,
    /// A regular file.
    File,
    /// A directory.
    Directory,
    /// Something else.
    Other,
}

/// What was found at a path.
#[derive(Debug)]
pub struct Probe {
    /// The path that was looked at.
    pub path: String,
    /// What stands there.
    pub kind: FileKind,
    /// Its size in bytes.
    pub size: u64,
}

/// The position of the probe of `path`, or the number of probes.
pub open spec fn probe_at(probes: Seq<Probe>, path: Seq<char>) -> int
    decreases probes.len(),
{
    if probes.len() == 0 || probes[0].path@ == path {
        0
    } else {
        1 + probe_at(probes.drop_first(), path)
    }
}

/// What stands at `path`; nothing where nobody looked.
pub open spec fn kind_at(probes: Seq<Probe>, path: Seq<char>) -> FileKind {
    if probe_at(probes, path) < probes.len() {
        probes[probe_at(probes, path)].kind
    } else {
        FileKind::Missing
    }
}

/// The size of what stands at `path`.
pub open spec fn size_at(probes: Seq<Probe>, path: Seq<char>) -> u64 {
    if probe_at(probes, path) < probes.len() {
        probes[probe_at(probes, path)].size
    } else {
        0
    }
}

/// The position of the probe of `path`.
fn find_probe(probes: &[Probe], path: &str) -> (at: usize)
    ensures
        at == probe_at(probes@, path@),
        at <= probes@.len(),
{
    let mut i: usize = 0;
    assert(probes@.skip(0) =~= probes@);
    while i < probes.len() && !same_text(probes[i].path.as_str(), path)
        invariant
            i <= probes@.len(),
            probe_at(probes@, path@) == i + probe_at(probes@.skip(i as int), path@),
        decreases probes@.len() - i,
    {
        assert(probes@.skip(i as int).drop_first() =~= probes@.skip(i + 1));
        i = i + 1;
    }
    i
}

/// What stands at `path`.
pub fn found_kind(probes: &[Probe], path: &str) -> (kind: FileKind)
    ensures
        kind == kind_at(probes@, path@),
{
    let at = find_probe(probes, path);
    if at < probes.len() {
        probes[at].kind
    } else {
        FileKind::Missing
    }
}

/// The size of what stands at `path`.
pub fn found_size(probes: &[Probe], path: &str) -> (size: u64)
    ensures
        size == size_at(probes@, path@),
{
    let at = find_probe(probes, path);
    if at < probes.len() {
        probes[at].size
    } else {
        0
    }
}

} // verus!
