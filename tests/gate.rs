use codex_sdd::gate::{
    change_group_of, check_changes, require_spec_update, required_artifacts, CheckOutcome,
    GateError,
};

fn v(xs: &[&str]) -> Vec<String> {
    xs.iter().map(|s| s.to_string()).collect()
}

#[test]
fn docs_only_passes() {
    assert!(matches!(check_changes(&v(&["docs/a.md"])), Ok(CheckOutcome::DocsOnly)));
}

#[test]
fn code_without_spec_needs_spec_update() {
    let r = check_changes(&v(&["src/x.rs"]));
    assert!(matches!(r, Err(GateError::SpecUpdateRequired)));
    assert!(GateError::SpecUpdateRequired.message().contains("spec update required"));
}

#[test]
fn code_with_spec_but_no_artifacts_fails() {
    let r = check_changes(&v(&["src/x.rs", "docs/sdd/specs/x.md"]));
    assert!(matches!(r, Err(GateError::ArtifactsRequired)));
    assert!(GateError::ArtifactsRequired.message().contains("artifacts required"));
}

#[test]
fn code_with_spec_and_artifacts_passes() {
    let r = check_changes(&v(&[
        "src/x.rs",
        "docs/sdd/specs/x.md",
        "docs/sdd/changes/c1_feat/90_decision.md",
        "docs/sdd/changes/c1_feat/40_tasks.md",
        "docs/sdd/changes/c1_feat/50_test_plan.md",
    ]));
    assert!(matches!(r, Ok(CheckOutcome::Passed)));
}

#[test]
fn artifacts_split_over_groups_do_not_count() {
    let changed = v(&[
        "Cargo.toml",
        "docs/sdd/specs/x.md",
        "docs/sdd/changes/c1_a/90_decision.md",
        "docs/sdd/changes/c2_b/40_tasks.md",
        "docs/sdd/changes/c3_c/50_test_plan.md",
    ]);
    assert_eq!(required_artifacts(&changed), (false, false, false));
    assert!(matches!(check_changes(&changed), Err(GateError::ArtifactsRequired)));
}

#[test]
fn no_changes_and_non_code_changes_pass() {
    assert!(matches!(check_changes(&Vec::new()), Ok(CheckOutcome::NoChanges)));
    assert!(matches!(check_changes(&v(&["README.md", "docs/x.md"])), Ok(CheckOutcome::Passed)));
}

#[test]
fn change_groups() {
    assert_eq!(change_group_of("docs/sdd/changes/c1_feat/40_tasks.md").as_deref(), Some("c1_feat"));
    assert_eq!(change_group_of("docs/sdd/changes/only").as_deref(), Some("only"));
    assert_eq!(change_group_of("docs/sdd/specs/x.md"), None);
}

#[test]
fn finalize_needs_spec_document() {
    assert!(require_spec_update(&v(&["docs/sdd/specs/a.md"])).is_ok());
    assert!(matches!(require_spec_update(&v(&["docs/sdd/specs/a.txt", "src/a.rs"])), Err(GateError::SpecUpdateRequired)));
}
