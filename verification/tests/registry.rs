use outcrop::registry::{
    db_id, discovered, find_db, finish_scan, kept_on_failure, scan_result, under_root, DbInfo, RootWalk,
};

#[test]
fn under_root_matches_whole_segments_only() {
    assert!(under_root("teams/a/db1", ""));
    assert!(under_root("teams/a/db1", "teams"));
    assert!(under_root("teams", "teams"));
    assert!(!under_root("teams2/db", "teams"));
    assert!(!under_root("team", "teams"));
}

#[test]
fn db_ids_join_store_and_path() {
    assert_eq!(db_id("mem", "demo"), "mem:demo");
}

fn db(store: &str, path: &str) -> DbInfo {
    DbInfo { id: format!("{store}:{path}"), store: store.to_string(), path: path.to_string() }
}

#[test]
fn failed_walk_keeps_previous_dbs_of_that_root() {
    let prev = vec![db("mem", "demo"), db("mem", "other/x"), db("s3", "demo")];
    // The walk of "mem" root "/demo/" fails; "s3" root "" finds "demo" and "new".
    let mut found = kept_on_failure(&prev, "mem", "/demo/");
    found.extend(discovered("s3", &vec!["new".to_string(), "demo".to_string(), "demo".to_string()]));
    let r = finish_scan(found);
    let ids: Vec<&str> = r.iter().map(|d| d.id.as_str()).collect();
    assert_eq!(ids, vec!["mem:demo", "s3:demo", "s3:new"]);
    assert_eq!(find_db(&r, "s3:new"), Some(2));
    assert_eq!(find_db(&r, "mem:demo"), Some(0));
    assert_eq!(find_db(&r, "mem:other/x"), None);
    assert_eq!(find_db(&r, "other:demo"), None);
}

#[test]
fn scan_keeps_dbs_of_a_failed_walk_and_lists_each_id_once() {
    let prev = vec![db("mem", "demo"), db("mem", "other/x")];
    let walks = vec![
        RootWalk { store: "mem".to_string(), root: "demo".to_string(), found: None },
        RootWalk { store: "mem".to_string(), root: "other".to_string(), found: Some(vec!["other/y".to_string()]) },
        RootWalk { store: "mem".to_string(), root: "".to_string(), found: Some(vec!["demo".to_string()]) },
    ];
    let r = scan_result(&prev, &walks);
    let ids: Vec<&str> = r.iter().map(|d| d.id.as_str()).collect();
    assert_eq!(ids, vec!["mem:demo", "mem:other/y"]);
    // An outage on the only root still yields what was there before.
    let outage = vec![RootWalk { store: "mem".to_string(), root: "".to_string(), found: None }];
    let r = scan_result(&vec![db("mem", "demo")], &outage);
    assert_eq!(r.iter().map(|d| d.id.as_str()).collect::<Vec<_>>(), vec!["mem:demo"]);
    assert_eq!(find_db(&r, "mem:demo"), Some(0));
    assert_eq!(find_db(&r, "mem:nope"), None);
}
