use directive_migration::walk::CandidatePolicy;

fn comps(p: &[&str]) -> Vec<String> {
    p.iter().map(|s| s.to_string()).collect()
}

#[test]
fn candidates_by_extension_and_subtree() {
    let policy = CandidatePolicy::test_sources(vec![comps(&["tests", "ui"])]);
    assert!(policy.is_candidate(false, Some("rs"), &comps(&["tests", "codegen", "a.rs"])));
    assert!(policy.is_candidate(false, Some("fixed"), &comps(&["tests", "b.fixed"])));
    assert!(!policy.is_candidate(false, Some("stderr"), &comps(&["tests", "c.stderr"])));
    assert!(!policy.is_candidate(false, None, &comps(&["tests", "Makefile"])));
    assert!(!policy.is_candidate(true, Some("rs"), &comps(&["tests", "dir.rs"])));
    assert!(!policy.is_candidate(false, Some("rs"), &comps(&["tests", "ui", "d.rs"])));
    assert!(policy.is_candidate(false, Some("rs"), &comps(&["tests", "uix", "d.rs"])));
}
