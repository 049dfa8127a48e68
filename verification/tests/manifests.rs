use orchestrator::ManifestError;
use orchestrator::build_program;

#[test]
fn reads_a_simple_manifest() {
    let text = r#"{"dependencies":{"first":"bar:1.0","second":"baz:latest"}}"#;
    let p = build_program("foo".to_string(), text, false).unwrap();
    assert_eq!(p.name, "foo");
    assert_eq!(p.dependencies, vec!["bar", "baz"]);
    assert!(!p.has_package_manifest);
}

#[test]
fn keeps_the_package_manifest_mark() {
    let text = r#"{"dependencies":{}}"#;
    let p = build_program("foo".to_string(), text, true).unwrap();
    assert!(p.has_package_manifest);
    assert!(p.dependencies.is_empty());
}

#[test]
fn unreadable_manifest_is_an_error() {
    let r = build_program("foo".to_string(), "not a manifest", false);
    assert!(matches!(r, Err(ManifestError::Unreadable)));
}

#[test]
fn missing_dependency_field_is_malformed() {
    let r = build_program("foo".to_string(), r#"{"name":"foo"}"#, false);
    assert!(matches!(r, Err(ManifestError::Malformed)));
}

#[test]
fn non_mapping_dependency_field_is_malformed() {
    let r = build_program("foo".to_string(), r#"{"dependencies":3}"#, false);
    assert!(matches!(r, Err(ManifestError::Malformed)));
}

#[test]
fn reserved_names_are_excluded() {
    let text = r#"{"dependencies":{"io":"sys-io:1","real":"real:1","proc":"sys-process:2"}}"#;
    let p = build_program("foo".to_string(), text, false).unwrap();
    assert_eq!(p.dependencies, vec!["real"]);
}

#[test]
fn entries_without_a_colon_are_ignored() {
    let text = r#"{"dependencies":{"a":"nocolon","b":"with:1"}}"#;
    let p = build_program("foo".to_string(), text, false).unwrap();
    assert_eq!(p.dependencies, vec!["with"]);
}

#[test]
fn non_string_entries_are_ignored() {
    let text = r#"{"dependencies":{"a":5,"b":"ok:1","c":["x:1"]}}"#;
    let p = build_program("foo".to_string(), text, false).unwrap();
    assert_eq!(p.dependencies, vec!["ok"]);
}

#[test]
fn dependencies_are_deduplicated_and_sorted() {
    let text = r#"{"dependencies":{"k1":"zeta:1","k2":"alpha:2","k3":"zeta:9","k4":"mid:0"}}"#;
    let p = build_program("foo".to_string(), text, false).unwrap();
    assert_eq!(p.dependencies, vec!["alpha", "mid", "zeta"]);
}

#[test]
fn only_the_first_colon_splits() {
    let text = r#"{"dependencies":{"a":"name:with:tags"}}"#;
    let p = build_program("foo".to_string(), text, false).unwrap();
    assert_eq!(p.dependencies, vec!["name"]);
}
