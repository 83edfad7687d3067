//! Unit tests of the filter pipeline on constructed candidate lists,
//! with no filesystem involved.

use findwalk::filter::{entry_passes, filter_candidates};
use findwalk::options::{Candidate, EntryMeta, FindOptions};

fn meta_file(size: u64) -> EntryMeta {
    EntryMeta { is_file: true, is_dir: false, size }
}

fn meta_dir() -> EntryMeta {
    EntryMeta { is_file: false, is_dir: true, size: 0 }
}

fn cand(path: &str, meta: EntryMeta) -> Candidate {
    Candidate { path: path.to_string(), meta }
}

fn base_opts(root: &str) -> FindOptions {
    FindOptions {
        path: root.to_string(),
        name_pattern: None,
        respect_gitignore: false,
        max_depth: None,
        file_type: None,
    }
}

#[test]
fn root_itself_is_never_kept() {
    let o = base_opts("/r");
    let cands = vec![cand("/r", meta_dir()), cand("/r/a", meta_file(1))];
    let out = filter_candidates(&o, &cands);
    assert_eq!(out.len(), 1);
    assert_eq!(out[0].path, "/r/a");
    assert_eq!(out[0].size, 1);
    assert!(!out[0].is_dir);
}

#[test]
fn trailing_slash_root_is_still_excluded() {
    let o = base_opts("/r/");
    let cands = vec![cand("/r/", meta_dir()), cand("/r/a", meta_file(2))];
    let out = filter_candidates(&o, &cands);
    assert_eq!(out.len(), 1);
    assert_eq!(out[0].path, "/r/a");
}

#[test]
fn depth_bound_drops_deeper_entries() {
    let mut o = base_opts("/r");
    o.max_depth = Some(1);
    let cands = vec![
        cand("/r/sub", meta_dir()),
        cand("/r/sub/b.txt", meta_file(3)),
        cand("/r/a.txt", meta_file(4)),
    ];
    let out = filter_candidates(&o, &cands);
    let paths: Vec<&str> = out.iter().map(|e| e.path.as_str()).collect();
    assert_eq!(paths, vec!["/r/sub", "/r/a.txt"]);
}

#[test]
fn empty_pattern_matches_everything() {
    let mut o = base_opts("/r");
    o.name_pattern = Some(String::new());
    let cands = vec![cand("/r/a", meta_file(1)), cand("/r/sub", meta_dir())];
    assert_eq!(filter_candidates(&o, &cands).len(), 2);
}

#[test]
fn pattern_applies_to_final_component_only() {
    let mut o = base_opts("/r");
    o.name_pattern = Some("sub".to_string());
    let c_dir = cand("/r/sub", meta_dir());
    let c_file = cand("/r/sub/b.txt", meta_file(3));
    assert!(entry_passes(&o, &c_dir));
    assert!(!entry_passes(&o, &c_file));
}

#[test]
fn type_filter_on_constructed_candidates() {
    let mut o = base_opts("/r");
    o.file_type = Some("d".to_string());
    let cands = vec![cand("/r/a", meta_file(1)), cand("/r/sub", meta_dir())];
    let out = filter_candidates(&o, &cands);
    assert_eq!(out.len(), 1);
    assert_eq!(out[0].path, "/r/sub");
    assert!(out[0].is_dir);
}

#[test]
fn candidates_outside_the_root_are_dropped() {
    let o = base_opts("/r");
    let cands = vec![cand("/elsewhere/a", meta_file(1)), cand("/r/a", meta_file(2))];
    let out = filter_candidates(&o, &cands);
    assert_eq!(out.len(), 1);
    assert_eq!(out[0].path, "/r/a");
}

#[test]
fn results_keep_traversal_order() {
    let o = base_opts("/r");
    let cands = vec![
        cand("/r/c", meta_file(1)),
        cand("/r/a", meta_file(2)),
        cand("/r/b", meta_file(3)),
    ];
    let out = filter_candidates(&o, &cands);
    let paths: Vec<&str> = out.iter().map(|e| e.path.as_str()).collect();
    assert_eq!(paths, vec!["/r/c", "/r/a", "/r/b"]);
}
