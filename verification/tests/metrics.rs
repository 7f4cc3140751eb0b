use outcrop::metrics::{escape_label, exposition, render_grouped, Gauge};

#[test]
fn escapes_label_values() {
    assert_eq!(escape_label(r"a\b"), r"a\\b");
    assert_eq!(escape_label(r#"a"b"#), r#"a\"b"#);
    assert_eq!(escape_label("a\nb"), r"a\nb");
    assert_eq!(escape_label("plain/db-path"), "plain/db-path");
}

#[test]
fn renders_exposition_format_grouped_across_dbs() {
    let out = render_grouped(&vec![
        ("store:db1".to_string(), vec![Gauge { name: "slatedb_up", help: "Up", value: 1 }]),
        ("store:db2".to_string(), vec![Gauge { name: "slatedb_up", help: "Up", value: 0 }]),
    ]);
    assert_eq!(
        out,
        "# HELP slatedb_up Up\n# TYPE slatedb_up gauge\n\
         slatedb_up{db=\"store:db1\"} 1\nslatedb_up{db=\"store:db2\"} 0\n"
    );
}

#[test]
fn renders_escaped_db_label() {
    let out = render_grouped(&vec![(
        "a\"b".to_string(),
        vec![Gauge { name: "slatedb_up", help: "Up", value: 0 }],
    )]);
    assert!(out.contains("slatedb_up{db=\"a\\\"b\"} 0"));
}

#[test]
fn groups_keep_first_seen_order_and_help() {
    let out = render_grouped(&vec![
        (
            "s:a".to_string(),
            vec![
                Gauge { name: "m2", help: "second", value: -3 },
                Gauge { name: "m1", help: "first", value: 5 },
            ],
        ),
        ("s:b".to_string(), vec![Gauge { name: "m1", help: "other help", value: 6 }]),
    ]);
    assert_eq!(
        out,
        "# HELP m2 second\n# TYPE m2 gauge\nm2{db=\"s:a\"} -3\n\
         # HELP m1 first\n# TYPE m1 gauge\nm1{db=\"s:a\"} 5\nm1{db=\"s:b\"} 6\n"
    );
}

#[test]
fn exposition_starts_with_the_scan_gauge() {
    let out = exposition(false, &vec![]);
    assert_eq!(
        out,
        "# HELP slatedb_dashboard_scan_up Whether DB discovery succeeded\n\
         # TYPE slatedb_dashboard_scan_up gauge\nslatedb_dashboard_scan_up 0\n"
    );
}
