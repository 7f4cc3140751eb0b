use outcrop::config::{default_roots, expand_with, references_in, validate_store_names};

fn names(ns: &[&str]) -> Vec<String> {
    ns.iter().map(|s| s.to_string()).collect()
}

#[test]
fn rejects_bad_names_and_duplicates() {
    assert!(validate_store_names(&names(&["a:b"])).is_err());
    assert!(validate_store_names(&names(&["a", "a"])).is_err());
    assert!(validate_store_names(&names(&[])).is_err());
}

#[test]
fn store_name_errors_name_the_rule() {
    assert_eq!(validate_store_names(&names(&["local", "s3_prod-2"])), Ok(()));
    assert_eq!(validate_store_names(&names(&[])), Err("config has no [[stores]] entries".to_string()));
    assert_eq!(
        validate_store_names(&names(&["ok", "", "a:b"])),
        Err("store name '' is invalid (use [A-Za-z0-9_-]+; ':' is the id separator)".to_string())
    );
    assert_eq!(
        validate_store_names(&names(&["x", "y", "x"])),
        Err("store names must be unique".to_string())
    );
    // An invalid name is reported before a duplicate.
    assert_eq!(
        validate_store_names(&names(&["x", "x", "é"])),
        Err("store name 'é' is invalid (use [A-Za-z0-9_-]+; ':' is the id separator)".to_string())
    );
}

#[test]
fn expands_references_with_given_values() {
    assert_eq!(references_in("a-${DASH_TEST_VAR}-b"), vec!["DASH_TEST_VAR".to_string()]);
    assert_eq!(
        expand_with("a-${DASH_TEST_VAR}-b", &vec![Some("sekrit".to_string())], "test"),
        Ok("a-sekrit-b".to_string())
    );
    let err = expand_with("${DASH_TEST_MISSING}", &vec![None], "store 'x', key 'k'").unwrap_err();
    assert!(err.contains("DASH_TEST_MISSING"), "{err}");
    assert_eq!(err, "store 'x', key 'k': environment variable 'DASH_TEST_MISSING' is not set");
    assert_eq!(expand_with("${oops", &vec![], "test"), Err("test: unclosed ${ in value".to_string()));
}

#[test]
fn expansion_order_and_edge_cases() {
    assert_eq!(references_in("${A}${B}x${C"), vec!["A".to_string(), "B".to_string()]);
    assert_eq!(
        expand_with("${A}${B}", &vec![Some("1".to_string()), Some("2".to_string())], "c"),
        Ok("12".to_string())
    );
    // An unset variable before an unclosed reference decides the error.
    assert_eq!(
        expand_with("${A}${oops", &vec![None], "c"),
        Err("c: environment variable 'A' is not set".to_string())
    );
    assert_eq!(expand_with("${A}${oops", &vec![Some("v".to_string())], "c"), Err("c: unclosed ${ in value".to_string()));
    assert_eq!(expand_with("no refs $ { }", &vec![], "c"), Ok("no refs $ { }".to_string()));
    assert_eq!(expand_with("${}", &vec![Some("e".to_string())], "c"), Ok("e".to_string()));
}

#[test]
fn default_roots_is_the_store_root() {
    assert_eq!(default_roots(), vec![String::new()]);
}
