use host_lifecycle::setup::{Requirement, RequirementKind};

fn req(kind: RequirementKind, target: &str, required: bool, present: bool) -> Requirement {
    Requirement { kind, target: target.to_string(), required, present, note: String::new() }
}

#[test]
fn missing_required_artifact_gaps() {
    assert!(req(RequirementKind::HostHookInstalled, "host-lint", true, false).is_gap());
}

#[test]
fn present_or_unrequired_artifact_never_gaps() {
    assert!(!req(RequirementKind::HostHookInstalled, "host-lint", true, true).is_gap());
    assert!(!req(RequirementKind::BuildArtifactPresent, "host-lint", false, false).is_gap());
}

#[test]
fn worktree_hook_gap_names_the_worktree() {
    let r = req(RequirementKind::WorktreeHookInstalled, "software/host-lint/main", true, false);
    assert!(r.is_gap());
    assert_eq!(r.target, "software/host-lint/main");
    let remedy = r.kind.remedy("/tmp/tree", None);
    assert!(remedy.contains("--install-hooks"), "the remedy installs the missing thing");
    assert!(remedy.contains("/tmp/tree"), "and it names this tree, never a `<dir>` to paste");
}

#[test]
fn every_gap_is_a_missing_required_artifact() {
    let reqs = [
        req(RequirementKind::WorktreeMaterialized, "a", true, true),
        req(RequirementKind::SkillLinked, "b", true, false),
        req(RequirementKind::BuildArtifactPresent, "c", false, false),
    ];
    for r in reqs.iter().filter(|r| r.is_gap()) {
        assert!(r.required && !r.present);
    }
    assert_eq!(reqs.iter().filter(|r| r.is_gap()).count(), 1);
}

#[test]
fn verify_setup_no_false_hazard() {
    let reqs = [
        req(RequirementKind::WorktreeMaterialized, "a", true, true),
        req(RequirementKind::BuildArtifactPresent, "b", false, false),
        req(RequirementKind::SkillLinked, "c", true, true),
    ];
    assert_eq!(reqs.iter().filter(|r| r.is_gap()).count(), 0, "nothing missing, nothing to report");
    let with_gap = [req(RequirementKind::RederiverOnPath, "host-prove", true, false)];
    assert_eq!(with_gap.iter().filter(|r| r.is_gap()).count(), 1, "one missing artifact, one gap");
}
