use directive_migration::directive_set::{is_matchable, DirectiveSet};

#[test]
fn filter_drops_lint_suppression_lines() {
    let primary = "// run-pass\n// ignore-tidy-foo\n";
    let secondary = vec![String::from("// ignore-tidy-linelength\n//[x] ignore-windows\n")];
    let set = DirectiveSet::build(primary, &secondary, &Vec::new());
    assert!(!set.contains("// ignore-tidy-foo"));
    assert!(!set.contains("// ignore-tidy-linelength"));
    assert!(set.contains("// run-pass"));
    assert!(set.contains("//[x] ignore-windows"));
    assert_eq!(set.len(), 2);
}

#[test]
fn filter_rules() {
    assert!(!is_matchable(""));
    assert!(!is_matchable("   "));
    assert!(!is_matchable("//"));
    assert!(!is_matchable("  //  "));
    assert!(!is_matchable("# ignore-cross-compile"));
    assert!(!is_matchable("//   ignore-tidy-tab"));
    assert!(is_matchable("// run-pass"));
    assert!(is_matchable("//[a] ignore-tidy"));
    assert!(is_matchable("no marker at all"));
}

#[test]
fn build_splits_lines_and_collapses_duplicates() {
    let primary = "// run-pass\r\n// run-pass\n\n// edition: 2021";
    let set = DirectiveSet::build(primary, &Vec::new(), &Vec::new());
    assert_eq!(set.len(), 2);
    assert_eq!(set.get(0), "// run-pass");
    assert_eq!(set.get(1), "// edition: 2021");
}

#[test]
fn overrides_bypass_the_filter() {
    let overrides = vec![String::from("// ignore-tidy-foo"), String::from("// run-pass")];
    let set = DirectiveSet::build("// run-pass\n", &Vec::new(), &overrides);
    assert!(set.contains("// ignore-tidy-foo"));
    assert_eq!(set.len(), 2);
}

#[test]
fn insert_collected_applies_filter() {
    let mut set = DirectiveSet::new();
    set.insert_collected("// ignore-tidy-foo");
    set.insert_collected("#comment");
    set.insert_collected("// check-pass");
    set.insert_collected("// check-pass");
    assert_eq!(set.len(), 1);
    assert!(set.contains("// check-pass"));
}

#[test]
fn add_collected_text_reads_every_line() {
    let mut set = DirectiveSet::new();
    set.add_collected_text("// a\n// b\r\n// c");
    assert_eq!(set.len(), 3);
    assert!(set.contains("// c"));
    assert!(!set.contains("// b\r"));
}
