//! The trusted boundary to the filesystem and to the two walker crates.
//! Everything here depends on the state of the filesystem at call time, so
//! apart from the shape of each result nothing is promised of what comes
//! back; the one pure call, case folding, gets its result named.

use vstd::prelude::*;
use crate::options::EntryMeta;

verus! {

/// Relies on std's `Path::exists`: whether `p` references an existing
/// filesystem entry, following symlinks. The answer depends on the
/// filesystem at call time, so nothing is promised of it.
#[verifier::external_body]
pub(crate) fn path_exists(p: &String) -> bool {
    std::path::Path::new(p).exists()
}

/// Relies on std's `Path::metadata` (following symlinks) for the entry
/// type and byte size. std documents `is_file` and `is_dir` as mutually
/// exclusive, which is all that can be promised of a disk-dependent read.
#[verifier::external_body]
pub(crate) fn stat_path(p: &String) -> (r: Option<EntryMeta>)
    ensures
        (match r {
            Some(m) => !(m.is_file && m.is_dir),
            None => true,
        }),
{
    match std::path::Path::new(p).metadata() {
        Ok(m) => Some(EntryMeta { is_file: m.is_file(), is_dir: m.is_dir(), size: m.len() }),
        Err(_) => None,
    }
}

/// Relies on walkdir's `WalkDir`: a depth-first walk of `root` in
/// directory-listing order, bounded by `max_depth` when given (the root
/// itself has depth 0); entries the walker fails to read are skipped.
/// What comes back depends on the filesystem, so nothing is promised.
#[verifier::external_body]
pub(crate) fn walk_plain(root: &String, max_depth: Option<usize>) -> Vec<String> {
    let mut w = walkdir::WalkDir::new(root);
    if let Some(d) = max_depth {
        w = w.max_depth(d);
    }
    w.into_iter()
        .filter_map(|e| e.ok())
        .map(|e| e.path().to_string_lossy().to_string())
        .collect()
}

/// Relies on the ignore crate's `WalkBuilder` with its standard filters:
/// a depth-first walk of `root` that skips hidden entries and entries
/// excluded by ignore files found along the way, bounded by `max_depth`
/// when given; entries the walker fails to read are skipped. What comes
/// back depends on the filesystem, so nothing is promised.
#[verifier::external_body]
pub(crate) fn walk_ignore_aware(root: &String, max_depth: Option<usize>) -> Vec<String> {
    let mut b = ignore::WalkBuilder::new(root);
    if let Some(d) = max_depth {
        b.max_depth(Some(d));
    }
    b.standard_filters(true)
        .build()
        .filter_map(|e| e.ok())
        .map(|e| e.path().to_string_lossy().to_string())
        .collect()
}

/// The Unicode lowercase form of a character sequence, as
/// `str::to_lowercase` computes it.
pub uninterp spec fn lower_of(s: Seq<char>) -> Seq<char>;

/// Relies on `str::to_lowercase`: its result depends on the characters of
/// `s` alone, and an empty string stays empty.
#[verifier::external_body]
pub(crate) fn fold_case(s: &str) -> (r: String)
    ensures
        r@ == lower_of(s@),
        s@.len() == 0 ==> r@.len() == 0,
{
    s.to_lowercase()
}

} // verus!
