//! The find engine: validate the root, pick a traversal strategy, drive
//! the candidates through the filter pipeline, and hand the survivors
//! back.

use vstd::prelude::*;

use crate::filter::{
    candidate_views, collect_candidates, filter_candidates, kept_entry, lemma_depth_zero_empty,
    lemma_spec_filter_sound, result_views, spec_filter,
};
use crate::fsio::{path_exists, walk_ignore_aware, walk_plain};
use crate::options::{FindOptions, FindResult};
use crate::text::{contains_at, contains_sub};

verus! {

use vstd::string::StringExecFns;

/// The text of the fatal error reported for an absent root.
pub open spec fn missing_msg(path: Seq<char>) -> Seq<char> {
    "Path '"@ + path + "' does not exist"@
}

/// Build the fatal error text for an absent root.
pub fn missing_message(path: &String) -> (r: String)
    ensures
        r@ == missing_msg(path@),
{
    let mut m = String::from_str("Path '");
    m.append(path.as_str());
    m.append("' does not exist");
    m
}

/// Law: the fatal error names the offending path: the root path occurs
/// verbatim in the message text.
pub proof fn lemma_missing_msg_names_path(path: Seq<char>)
    ensures
        contains_sub(missing_msg(path), path),
{
    let pre = "Path '"@;
    let m = missing_msg(path);
    assert(contains_at(m, path, pre.len() as int)) by {
        assert forall|k: int| 0 <= k < path.len() implies m[pre.len() + k] == path[k] by {}
    }
}

/// Walk the filesystem below `options.path` and return every entry that
/// survives the depth, type and name filters, in traversal order.
///
/// When the root does not exist the call fails at once with a message
/// naming the path, and no traversal happens. Failures during the walk
/// (unreadable subtrees, vanished entries) never fail the call: the
/// affected entries are skipped silently. Whatever the filesystem handed
/// back, every returned entry passed every filter, and a depth bound of
/// zero leaves no results at all, since the root itself is never one.
pub fn find_files(options: &FindOptions) -> (r: Result<Vec<FindResult>, String>)
    ensures
        (match r {
            Err(m) => m@ == missing_msg(options@.path) && contains_sub(m@, options@.path),
            Ok(v) => {
                &&& forall|k: int|
                    0 <= k < v@.len() ==> kept_entry(options@, (#[trigger] v@[k])@)
                &&& options@.max_depth == Some(0usize) ==> v@.len() == 0
            },
        }),
{
    if !path_exists(&options.path) {
        let m = missing_message(&options.path);
        proof {
            lemma_missing_msg_names_path(options@.path);
        }
        return Err(m);
    }
    let raw = if options.respect_gitignore {
        walk_ignore_aware(&options.path, options.max_depth)
    } else {
        walk_plain(&options.path, options.max_depth)
    };
    let cands = collect_candidates(&raw);
    let results = filter_candidates(options, &cands);
    proof {
        let cvs = candidate_views(cands@);
        assert(forall|i: int|
            0 <= i < cvs.len() ==> crate::filter::wf_meta((#[trigger] cvs[i]).meta)) by {
            assert(forall|i: int| 0 <= i < cvs.len() ==> cvs[i] == cands@[i]@);
        }
        lemma_spec_filter_sound(options@, cvs);
        if options@.max_depth == Some(0usize) {
            lemma_depth_zero_empty(options@, cvs);
        }
        assert(forall|k: int|
            0 <= k < results@.len() ==> (#[trigger] results@[k])@ == result_views(results@)[k]);
    }
    Ok(results)
}

} // verus!
