//! End-to-end tests of the find engine against real directory trees.

use std::io::Write;

use findwalk::{find_files, FindOptions};

fn opts(path: &str) -> FindOptions {
    FindOptions {
        path: path.to_string(),
        name_pattern: None,
        respect_gitignore: false,
        max_depth: None,
        file_type: None,
    }
}

fn make_file(dir: &std::path::Path, stem: &str, ext: &str, bytes: &[u8]) -> tempfile::NamedTempFile {
    let mut f = tempfile::Builder::new()
        .prefix(stem)
        .suffix(ext)
        .rand_bytes(0)
        .keep(true)
        .tempfile_in(dir)
        .unwrap();
    f.write_all(bytes).unwrap();
    f.flush().unwrap();
    f
}

fn make_dir(dir: &std::path::Path, name: &str) -> std::path::PathBuf {
    let d = tempfile::Builder::new()
        .prefix(name)
        .rand_bytes(0)
        .tempdir_in(dir)
        .unwrap();
    d.keep()
}

fn paths_of(results: &[findwalk::FindResult]) -> Vec<String> {
    let mut v: Vec<String> = results.iter().map(|r| r.path.clone()).collect();
    v.sort();
    v
}

#[test]
fn missing_root_fails_with_path_in_message() {
    let o = opts("/no/such/root/anywhere");
    let r = find_files(&o);
    match r {
        Ok(_) => panic!("expected an error for a missing root"),
        Err(m) => {
            assert_eq!(m, "Path '/no/such/root/anywhere' does not exist");
            assert!(m.contains("/no/such/root/anywhere"));
        }
    }
}

#[test]
fn missing_root_fails_ignore_aware_too() {
    let mut o = opts("/no/such/root/anywhere");
    o.respect_gitignore = true;
    assert!(find_files(&o).is_err());
}

#[test]
fn empty_root_yields_empty_results() {
    let dir = tempfile::tempdir().unwrap();
    let root = dir.path().to_str().unwrap().to_string();
    let r = find_files(&opts(&root)).unwrap();
    assert!(r.is_empty());
    let mut o = opts(&root);
    o.respect_gitignore = true;
    let r2 = find_files(&o).unwrap();
    assert!(r2.is_empty());
}

#[test]
fn idempotent_same_paths() {
    let dir = tempfile::tempdir().unwrap();
    let _a = make_file(dir.path(), "a", ".txt", b"0123456789");
    let sub = make_dir(dir.path(), "sub");
    let _b = make_file(&sub, "b", ".log", b"hello");
    let root = dir.path().to_str().unwrap().to_string();
    let r1 = find_files(&opts(&root)).unwrap();
    let r2 = find_files(&opts(&root)).unwrap();
    assert_eq!(paths_of(&r1), paths_of(&r2));
    let mut o = opts(&root);
    o.respect_gitignore = true;
    let r3 = find_files(&o).unwrap();
    let r4 = find_files(&o).unwrap();
    assert_eq!(paths_of(&r3), paths_of(&r4));
}

#[test]
fn depth_zero_yields_nothing() {
    let dir = tempfile::tempdir().unwrap();
    let _a = make_file(dir.path(), "a", ".txt", b"0123456789");
    let sub = make_dir(dir.path(), "sub");
    let _b = make_file(&sub, "b", ".txt", b"0123456789");
    let root = dir.path().to_str().unwrap().to_string();
    let mut o = opts(&root);
    o.max_depth = Some(0);
    assert!(find_files(&o).unwrap().is_empty());
    o.respect_gitignore = true;
    assert!(find_files(&o).unwrap().is_empty());
}

#[test]
fn depth_one_excludes_descendants() {
    let dir = tempfile::tempdir().unwrap();
    let _a = make_file(dir.path(), "a", ".txt", b"xx");
    let sub = make_dir(dir.path(), "sub");
    let _b = make_file(&sub, "b", ".txt", b"yy");
    let root = dir.path().to_str().unwrap().to_string();
    let mut o = opts(&root);
    o.max_depth = Some(1);
    let got = paths_of(&find_files(&o).unwrap());
    assert!(got.iter().any(|p| p.ends_with("a.txt")));
    assert!(got.iter().any(|p| p.ends_with("sub")));
    assert!(!got.iter().any(|p| p.ends_with("b.txt")));
}

#[test]
fn file_type_filter_files_only() {
    let dir = tempfile::tempdir().unwrap();
    let _a = make_file(dir.path(), "a", ".txt", b"xx");
    let sub = make_dir(dir.path(), "sub");
    let _b = make_file(&sub, "b", ".txt", b"yy");
    let root = dir.path().to_str().unwrap().to_string();
    let mut o = opts(&root);
    o.file_type = Some("f".to_string());
    let r = find_files(&o).unwrap();
    assert!(!r.is_empty());
    assert!(r.iter().all(|e| !e.is_dir));
}

#[test]
fn file_type_filter_dirs_only() {
    let dir = tempfile::tempdir().unwrap();
    let _a = make_file(dir.path(), "a", ".txt", b"xx");
    let sub = make_dir(dir.path(), "sub");
    let _b = make_file(&sub, "b", ".txt", b"yy");
    let root = dir.path().to_str().unwrap().to_string();
    let mut o = opts(&root);
    o.file_type = Some("d".to_string());
    let r = find_files(&o).unwrap();
    assert!(!r.is_empty());
    assert!(r.iter().all(|e| e.is_dir));
}

#[test]
fn unknown_file_type_filters_nothing() {
    let dir = tempfile::tempdir().unwrap();
    let _a = make_file(dir.path(), "a", ".txt", b"xx");
    let sub = make_dir(dir.path(), "sub");
    let root = dir.path().to_str().unwrap().to_string();
    let mut o = opts(&root);
    o.file_type = Some("x".to_string());
    let r = find_files(&o).unwrap();
    assert_eq!(r.len(), 2);
}

#[test]
fn name_filter_is_case_insensitive_when_ignore_aware() {
    let dir = tempfile::tempdir().unwrap();
    let _f = make_file(dir.path(), "foo", ".txt", b"xx");
    let root = dir.path().to_str().unwrap().to_string();
    let mut o = opts(&root);
    o.respect_gitignore = true;
    o.name_pattern = Some("FOO".to_string());
    let r = find_files(&o).unwrap();
    assert_eq!(r.len(), 1);
    assert!(r[0].path.ends_with("foo.txt"));
}

#[test]
fn name_filter_is_case_sensitive_when_plain() {
    let dir = tempfile::tempdir().unwrap();
    let _f = make_file(dir.path(), "foo", ".txt", b"xx");
    let _g = make_file(dir.path(), "FOO", ".dat", b"yy");
    let root = dir.path().to_str().unwrap().to_string();
    let mut o = opts(&root);
    o.name_pattern = Some("FOO".to_string());
    let r = find_files(&o).unwrap();
    assert_eq!(r.len(), 1);
    assert!(r[0].path.ends_with("FOO.dat"));
}

#[test]
fn ignore_file_honored_only_when_asked() {
    let dir = tempfile::tempdir().unwrap();
    let _ig = make_file(dir.path(), ".ignore", "", b"sub/\n");
    let sub = make_dir(dir.path(), "sub");
    let _b = make_file(&sub, "b", ".txt", b"yy");
    let _a = make_file(dir.path(), "a", ".txt", b"xx");
    let root = dir.path().to_str().unwrap().to_string();

    let mut aware = opts(&root);
    aware.respect_gitignore = true;
    let r1 = paths_of(&find_files(&aware).unwrap());
    assert!(r1.iter().any(|p| p.ends_with("a.txt")));
    assert!(!r1.iter().any(|p| p.contains("sub")));

    let r2 = paths_of(&find_files(&opts(&root)).unwrap());
    assert!(r2.iter().any(|p| p.ends_with("b.txt")));
    assert!(r2.iter().any(|p| p.ends_with(".ignore")));
}

#[test]
fn concrete_scenario_case_rules() {
    let dir = tempfile::tempdir().unwrap();
    let _a = make_file(dir.path(), "a", ".txt", b"0123456789");
    let sub = make_dir(dir.path(), "sub");
    let _b = make_file(&sub, "b", ".TXT", b"01234567890123456789");
    let root = dir.path().to_str().unwrap().to_string();

    let mut plain = opts(&root);
    plain.name_pattern = Some("txt".to_string());
    plain.file_type = Some("f".to_string());
    let r1 = find_files(&plain).unwrap();
    assert_eq!(r1.len(), 1);
    assert!(r1[0].path.ends_with("a.txt"));
    assert!(!r1[0].is_dir);
    assert_eq!(r1[0].size, 10);

    let mut aware = plain.clone();
    aware.respect_gitignore = true;
    let r2 = paths_of(&find_files(&aware).unwrap());
    assert_eq!(r2.len(), 2);
    assert!(r2.iter().any(|p| p.ends_with("a.txt")));
    assert!(r2.iter().any(|p| p.ends_with("b.TXT")));
    let sizes: Vec<u64> = {
        let mut rs = find_files(&aware).unwrap();
        rs.sort_by(|x, y| x.path.cmp(&y.path));
        rs.iter().map(|e| e.size).collect()
    };
    assert_eq!(sizes, vec![10, 20]);
}
