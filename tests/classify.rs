use directive_migration::classify::{classify_line, migrate_text, rewrite_line, LineOutcome};
use directive_migration::directive_set::DirectiveSet;

fn set_of(lines: &[&str]) -> DirectiveSet {
    let mut s = DirectiveSet::new();
    for l in lines {
        s.insert(l);
    }
    s
}

#[test]
fn end_to_end_scenario() {
    let set = set_of(&["// run-pass", "//[rev] edition: 2021"]);
    let input = ["// run-pass", "// just a comment", "//[rev] edition: 2021", "fn main() {}"];
    let expected = ["//@ run-pass", "// just a comment", "//@[rev] edition: 2021", "fn main() {}"];
    for (i, e) in input.iter().zip(expected.iter()) {
        assert_eq!(rewrite_line(&set, i), *e);
    }
    let text = input.join("\n") + "\n";
    assert_eq!(migrate_text(&set, &text), expected.join("\n") + "\n");
}

#[test]
fn rewrite_keeps_crlf_and_indent() {
    let set = set_of(&["  // check-pass"]);
    assert_eq!(rewrite_line(&set, "  // check-pass\r\n"), "  //@ check-pass\r\n");
    match classify_line(&set, "  // check-pass\n") {
        LineOutcome::Rewritten(s) => assert_eq!(s, "  //@ check-pass\n"),
        LineOutcome::Unchanged => panic!("expected a rewrite"),
    }
}

#[test]
fn indentation_is_part_of_the_match() {
    let set = set_of(&["// check-pass"]);
    assert!(matches!(classify_line(&set, "    // check-pass\n"), LineOutcome::Unchanged));
}

#[test]
fn prose_and_code_lines_unchanged() {
    let set = set_of(&["// run-pass"]);
    assert!(matches!(classify_line(&set, "// just a comment\n"), LineOutcome::Unchanged));
    assert!(matches!(classify_line(&set, "fn main() {} // run-pass\n"), LineOutcome::Unchanged));
    assert!(matches!(classify_line(&set, "//\n"), LineOutcome::Unchanged));
    assert!(matches!(classify_line(&set, "// RUN-PASS\n"), LineOutcome::Unchanged));
}

#[test]
fn code_before_marker_never_rewritten() {
    // even when the set holds such a line, only a leading marker is rewritten
    let set = set_of(&["let x = 1; // run-pass"]);
    assert_eq!(rewrite_line(&set, "let x = 1; // run-pass\n"), "let x = 1; // run-pass\n");
}

#[test]
fn migration_is_idempotent() {
    let set = set_of(&["// run-pass", "//[a] compile-flags: -O"]);
    let text = "// run-pass\n//[a] compile-flags: -O\r\n// prose\nfn main() {}";
    let once = migrate_text(&set, text);
    assert_eq!(once, "//@ run-pass\n//@[a] compile-flags: -O\r\n// prose\nfn main() {}");
    assert_eq!(migrate_text(&set, &once), once);
}

#[test]
fn unmatched_text_is_byte_identical() {
    let set = set_of(&["// run-pass"]);
    let text = "// run-pass please\n\t// other\r\n\nfn f() {}\n// no newline";
    assert_eq!(migrate_text(&set, text), text);
}

#[test]
fn last_line_without_terminator_is_processed() {
    let set = set_of(&["// run-pass"]);
    assert_eq!(migrate_text(&set, "fn main() {}\n// run-pass"), "fn main() {}\n//@ run-pass");
}

#[test]
fn empty_text_stays_empty() {
    let set = set_of(&["// run-pass"]);
    assert_eq!(migrate_text(&set, ""), "");
}

#[test]
fn empty_set_changes_nothing() {
    let set = DirectiveSet::new();
    assert_eq!(migrate_text(&set, "// run-pass\n"), "// run-pass\n");
}

#[test]
fn bare_marker_after_rewrite() {
    let set = set_of(&["//"]);
    assert_eq!(rewrite_line(&set, "//"), "//@");
}
