//! Request and result records of the find engine, with their mathematical
//! views.

use vstd::prelude::*;

verus! {

/// The caller's request: a root path, an optional name pattern (substring
/// of the final path component), the traversal strategy choice, an optional
/// depth bound, and an optional entry-type filter (`"f"` keeps only regular
/// files, `"d"` only directories, anything else keeps everything).
#[derive(Clone, Debug)]
pub struct FindOptions {
    pub path: String,
    pub name_pattern: Option<String>,
    pub respect_gitignore: bool,
    pub max_depth: Option<usize>,
    pub file_type: Option<String>,
}

/// The view of a [`FindOptions`]: the same record over character sequences.
pub struct OptionsView {
    pub path: Seq<char>,
    pub name_pattern: Option<Seq<char>>,
    pub respect_gitignore: bool,
    pub max_depth: Option<usize>,
    pub file_type: Option<Seq<char>>,
}

impl View for FindOptions {
    type V = OptionsView;

    open spec fn view(&self) -> OptionsView {
        OptionsView {
            path: self.path@,
            name_pattern: match self.name_pattern {
                Some(p) => Some(p@),
                None => None,
            },
            respect_gitignore: self.respect_gitignore,
            max_depth: self.max_depth,
            file_type: match self.file_type {
                Some(t) => Some(t@),
                None => None,
            },
        }
    }
}

/// What a successful metadata read tells the pipeline about one path.
/// A filesystem object is never both a regular file and a directory.
#[derive(Clone, Copy, Debug)]
pub struct EntryMeta {
    pub is_file: bool,
    pub is_dir: bool,
    pub size: u64,
}

/// A candidate produced by a traversal strategy whose metadata could be
/// read: the raw material of the filter pipeline.
#[derive(Clone, Debug)]
pub struct Candidate {
    pub path: String,
    pub meta: EntryMeta,
}

/// The view of a [`Candidate`].
pub struct CandidateView {
    pub path: Seq<char>,
    pub meta: EntryMeta,
}

impl View for Candidate {
    type V = CandidateView;

    open spec fn view(&self) -> CandidateView {
        CandidateView { path: self.path@, meta: self.meta }
    }
}

/// One matched entry: the walked path, whether it is a directory, and its
/// byte size as the platform reports it.
#[derive(Clone, Debug)]
pub struct FindResult {
    pub path: String,
    pub is_dir: bool,
    pub size: u64,
}

/// The view of a [`FindResult`].
pub struct ResultView {
    pub path: Seq<char>,
    pub is_dir: bool,
    pub size: u64,
}

impl View for FindResult {
    type V = ResultView;

    open spec fn view(&self) -> ResultView {
        ResultView { path: self.path@, is_dir: self.is_dir, size: self.size }
    }
}

} // verus!
