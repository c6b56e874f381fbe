use directive_migration::directive_set::DirectiveSet;
use directive_migration::names::{extract_directive_names, extract_name, MalformedKind};

#[test]
fn name_of_simple_directive() {
    assert_eq!(extract_name("// run-pass").unwrap(), "run-pass");
}

#[test]
fn name_of_directive_with_value() {
    assert_eq!(extract_name("// edition: 2021").unwrap(), "edition");
}

#[test]
fn name_of_revisioned_directive() {
    assert_eq!(extract_name("//[foo] ignore-windows").unwrap(), "ignore-windows");
}

#[test]
fn name_after_stray_colon() {
    assert_eq!(extract_name("//[foo]: ignore-windows").unwrap(), "ignore-windows");
}

#[test]
fn unbalanced_bracket_is_malformed() {
    assert_eq!(extract_name("//[foo ignore-windows"), Err(MalformedKind::UnclosedRevision));
}

#[test]
fn missing_marker_is_malformed() {
    assert_eq!(extract_name("run-pass"), Err(MalformedKind::NoMarker));
}

#[test]
fn code_before_marker_is_malformed() {
    assert_eq!(extract_name("x // run-pass"), Err(MalformedKind::CodeBeforeMarker));
}

#[test]
fn name_with_free_text_and_spacing() {
    assert_eq!(extract_name("  //  [a,b]   error-pattern some text").unwrap(), "error-pattern");
    assert_eq!(extract_name("// only-x86_64").unwrap(), "only-x86_64");
}

#[test]
fn names_of_set_are_distinct() {
    let mut set = DirectiveSet::new();
    set.insert("// run-pass");
    set.insert("//[a] edition: 2018");
    set.insert("//[b] edition: 2021");
    set.insert("// compile-flags: -O");
    let names = extract_directive_names(&set).unwrap();
    assert_eq!(names, vec!["run-pass", "edition", "compile-flags"]);
}

#[test]
fn names_report_first_malformed_directive() {
    let mut set = DirectiveSet::new();
    set.insert("// run-pass");
    set.insert("//[foo ignore-windows");
    set.insert("no marker");
    let err = extract_directive_names(&set).unwrap_err();
    assert_eq!(err.kind, MalformedKind::UnclosedRevision);
    assert_eq!(err.directive, "//[foo ignore-windows");
}
