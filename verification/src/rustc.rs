//! What `rustc` reads and writes.

use vstd::prelude::*;
use crate::path::NormalizedPath;

pub mod depinfo;
pub mod depinfo_laws;
pub mod outputs;
pub mod outputs_laws;

verus! {

/// What an argument parser read from a `rustc` command line.
#[derive(Debug)]
pub struct RustcParsedArgs {
    /// The crate root.
    pub source_file: NormalizedPath,
    /// What is asked for with `--emit`.
    pub emit_types: Vec<String>,
    /// `--crate-name`.
    pub crate_name: Option<String>,
    /// `-C extra-filename`.
    pub extra_filename: Option<String>,
    /// `--out-dir`.
    pub out_dir: Option<NormalizedPath>,
    /// The paths given as `--emit=kind=path`, by kind.
    pub explicit_emit_paths: Vec<(String, NormalizedPath)>,
    /// The mappings given with `--remap-path-prefix`.
    pub remap_path_prefixes: Vec<String>,
}

/// Emitted kinds and their paths, by their texts.
pub open spec fn emit_views(list: Seq<(String, NormalizedPath)>) -> Seq<(Seq<char>, Seq<char>)> {
    Seq::new(list.len(), |i: int| (list[i].0@, list[i].1@))
}

/// The path given for `kind`: the first one.
pub open spec fn explicit_path(list: Seq<(Seq<char>, Seq<char>)>, kind: Seq<char>) -> Option<Seq<char>>
    decreases list.len(),
{
    if list.len() == 0 {
        None
    } else if list[0].0 == kind {
        Some(list[0].1)
    } else {
        explicit_path(list.drop_first(), kind)
    }
}

/// The crate's name.
pub open spec fn crate_name_of(args: RustcParsedArgs) -> Seq<char> {
    match args.crate_name {
        Some(name) => name@,
        None => "unknown"@,
    }
}

/// The suffix of the crate's file names.
pub open spec fn suffix_of(args: RustcParsedArgs) -> Seq<char> {
    match args.extra_filename {
        Some(suffix) => suffix@,
        None => ""@,
    }
}

/// The directory that outputs go to.
pub open spec fn out_dir_of(args: RustcParsedArgs, cwd: Seq<char>) -> Seq<char> {
    match args.out_dir {
        Some(dir) => dir@,
        None => cwd,
    }
}

impl RustcParsedArgs {
    /// The crate's name.
    pub fn crate_name_or_unknown(&self) -> (name: &str)
        ensures
            name@ == crate_name_of(*self),
    {
        match &self.crate_name {
            Some(name) => name.as_str(),
            None => "unknown",
        }
    }

    /// The suffix of the crate's file names.
    pub fn file_suffix(&self) -> (suffix: &str)
        ensures
            suffix@ == suffix_of(*self),
    {
        match &self.extra_filename {
            Some(suffix) => suffix.as_str(),
            None => "",
        }
    }

    /// The directory that outputs go to.
    pub fn output_dir<'a>(&'a self, cwd: &'a str) -> (dir: &'a str)
        ensures
            dir@ == out_dir_of(*self, cwd@),
    {
        match &self.out_dir {
            Some(dir) => dir.as_str(),
            None => cwd,
        }
    }

    /// The path given for `kind`.
    pub fn explicit_emit_path(&self, kind: &str) -> (path: Option<&NormalizedPath>)
        ensures
            crate::keys::root_view(path) == explicit_path(emit_views(self.explicit_emit_paths@), kind@),
    {
        let list = &self.explicit_emit_paths;
        let ghost all = emit_views(list@);
        let mut i: usize = 0;
        assert(all.skip(0) =~= all);
        while i < list.len()
            invariant
                i <= list@.len(),
                *list == self.explicit_emit_paths,
                all == emit_views(list@),
                explicit_path(all, kind@) == explicit_path(all.skip(i as int), kind@),
            decreases list@.len() - i,
        {
            assert(all.skip(i as int)[0] == (list@[i as int].0@, list@[i as int].1@));
            if crate::text::same_text(list[i].0.as_str(), kind) {
                return Some(&list[i].1);
            }
            assert(all.skip(i as int).drop_first() =~= all.skip(i + 1));
            i = i + 1;
        }
        None
    }
}

} // verus!
