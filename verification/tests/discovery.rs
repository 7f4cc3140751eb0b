use std::collections::BTreeSet;

use outcrop::discovery::{is_db_root, manifest_child, ScanLimits, Walk};

fn last_segment(p: &str) -> String {
    p.rsplit('/').next().unwrap_or("").to_string()
}

/// The "directories" directly below `prefix` in a store holding `paths`.
fn child_dirs(paths: &[String], prefix: &str) -> Vec<String> {
    let mut out = BTreeSet::new();
    for p in paths {
        let rest = if prefix.is_empty() {
            Some(p.as_str())
        } else {
            p.strip_prefix(prefix).and_then(|r| r.strip_prefix('/'))
        };
        if let Some(rest) = rest {
            if let Some((dir, _)) = rest.split_once('/') {
                let full = if prefix.is_empty() { dir.to_string() } else { format!("{prefix}/{dir}") };
                out.insert(full);
            }
        }
    }
    out.into_iter().collect()
}

/// The objects below `prefix`, in listing order.
fn objects_under(paths: &[String], prefix: &str) -> Vec<String> {
    let mut v: Vec<String> = paths
        .iter()
        .filter(|p| p.strip_prefix(prefix).is_some_and(|r| r.starts_with('/')))
        .cloned()
        .collect();
    v.sort();
    v
}

fn discover(paths: &[String], root: &str, depth: usize, budget: usize) -> Vec<String> {
    let mut w = Walk::new(root.to_string(), ScanLimits { max_depth: depth, max_prefixes: budget });
    while let Some((prefix, d)) = w.next() {
        let children = child_dirs(paths, &prefix);
        let names: Vec<Option<String>> = children.iter().map(|c| Some(last_segment(c))).collect();
        let is_db = match manifest_child(&names) {
            Some(k) => {
                let objs: Vec<Option<String>> = objects_under(paths, &children[k])
                    .iter()
                    .take(50)
                    .map(|o| Some(last_segment(o)))
                    .collect();
                is_db_root(&objs)
            }
            None => false,
        };
        w.visit(prefix, d, is_db, children);
    }
    w.finish()
}

fn store(paths: &[&str]) -> Vec<String> {
    paths.iter().map(|p| p.to_string()).collect()
}

#[test]
fn finds_dbs_at_mixed_depths() {
    let s = store(&[
        "demo-db/manifest/00000000000000000001.manifest",
        "demo-db/compacted/01HX.sst",
        "teams/a/db1/manifest/00000000000000000007.manifest",
        "teams/a/notes/readme.txt",
        "logs/2026/06/10/app.log",
    ]);
    assert_eq!(discover(&s, "", 4, 2000), vec!["demo-db", "teams/a/db1"]);
}

#[test]
fn scoped_root_only_sees_its_subtree() {
    let s = store(&[
        "demo-db/manifest/00000000000000000001.manifest",
        "teams/a/db1/manifest/00000000000000000007.manifest",
    ]);
    assert_eq!(discover(&s, "teams", 4, 2000), vec!["teams/a/db1"]);
}

#[test]
fn manifest_dir_without_numbered_manifests_is_not_a_db() {
    let s = store(&["app/manifest/readme.txt", "app/data/file.bin"]);
    assert!(discover(&s, "", 4, 2000).is_empty());
}

#[test]
fn stray_files_in_manifest_dir_do_not_hide_a_db() {
    let s = store(&["db/manifest/.DS_Store", "db/manifest/00000000000000000001.manifest"]);
    assert_eq!(discover(&s, "", 4, 2000), vec!["db"]);
}

#[test]
fn respects_depth_limit() {
    let s = store(&[
        "a/b/c/d/e/db/manifest/00000000000000000001.manifest",
        "shallow/manifest/00000000000000000001.manifest",
    ]);
    assert_eq!(discover(&s, "", 4, 2000), vec!["shallow"]);
    assert_eq!(discover(&s, "", 8, 2000), vec!["a/b/c/d/e/db", "shallow"]);
}

#[test]
fn respects_prefix_budget() {
    let mut paths = Vec::new();
    for i in 0..50 {
        paths.push(format!("dir{i:02}/sub/file.txt"));
    }
    paths.push("zz-db/manifest/00000000000000000001.manifest".to_string());
    assert!(discover(&paths, "", 4, 5).is_empty());
}

#[test]
fn does_not_descend_into_detected_dbs() {
    let s = store(&[
        "db/manifest/00000000000000000001.manifest",
        "db/compacted/manifest/00000000000000000001.manifest",
    ]);
    assert_eq!(discover(&s, "", 6, 2000), vec!["db"]);
}

#[test]
fn default_limits() {
    let l = ScanLimits::default();
    assert_eq!((l.max_depth, l.max_prefixes), (4, 2000));
}

#[test]
fn probe_looks_only_at_the_first_fifty_objects() {
    let mut names: Vec<Option<String>> = (0..50).map(|i| Some(format!(".stray{i}"))).collect();
    names.push(Some("00000000000000000001.manifest".to_string()));
    assert!(!is_db_root(&names));
    names.remove(0);
    assert!(is_db_root(&names));
    assert!(!is_db_root(&vec![None, Some("x.manifest".to_string())]));
}

#[test]
fn walk_hands_out_prefixes_breadth_first_within_budget() {
    let mut w = Walk::new(String::new(), ScanLimits { max_depth: 1, max_prefixes: 2 });
    let (p, d) = w.next().unwrap();
    assert_eq!((p.as_str(), d), ("", 0));
    w.visit(p, d, false, vec!["a".to_string(), "b".to_string()]);
    let (p, d) = w.next().unwrap();
    assert_eq!((p.as_str(), d), ("a", 1));
    // depth bound reached: children are not queued
    w.visit(p, d, false, vec!["a/x".to_string()]);
    // budget of two listings is spent
    assert!(w.next().is_none());
    assert!(w.next().is_none());
    assert!(w.finish().is_empty());
}
