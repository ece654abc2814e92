use host_lifecycle::dream::{
    audit, early_outcome, parse_dream_args, settle_outcome, unaudited_outcome, Confidence, DreamArgs, DreamOutcome, TierMarker, TierState,
};

/// One run over a repo log on a machine with no per-user store, no tier
/// marker and no history to scan.
fn dream_outcome(memory_md: &str, fix: bool) -> DreamOutcome {
    let marker = TierMarker { state: TierState::Absent, provenance: String::new() };
    let a = audit(marker, false, &vec![], memory_md, vec![], false);
    settle_outcome(a.findings, fix, false)
}

#[test]
fn dream_confirmed_latch_sets() {
    let outcome = dream_outcome("# M\n\n## L\n\n### X\n\nSee [[missing-note]] here.\n", false);
    assert!(outcome.findings.iter().any(|f| f.confidence == Confidence::Confirmed));
    assert_eq!(outcome.exit_code, 1);
}

#[test]
fn dream_confirmed_latch_guarded() {
    let outcome = dream_outcome("# M\n\n## L\n\n### X\n\nSee call/0017.\n", false);
    assert!(!outcome.findings.iter().any(|f| f.confidence == Confidence::Confirmed));
    assert_eq!(outcome.exit_code, 3);
}

#[test]
fn dream_verdict_advisory_on_review_prompt_only() {
    let outcome = dream_outcome("# M\n\n## L\n\n### X\n\nSee plan/0042 for context.\n", false);
    assert!(!outcome.findings.is_empty());
    assert_eq!(outcome.exit_code, 3);
}

#[test]
fn dream_no_false_advisory_verdict() {
    let clean = dream_outcome("# M\n\n## L\n\n### X\n\nClean.\n", false);
    assert_ne!(clean.exit_code, 3);
    let confirmed = dream_outcome("# M\n\n## L\n\n### X\n\nSee [[missing-note]].\n", false);
    assert_ne!(confirmed.exit_code, 3);
}

#[test]
fn advisory_verdict_never_saw_confirmed() {
    let outcome = dream_outcome("# M\n\n## L\n\n### X\n\nSee call/0017.\n", false);
    assert_eq!(outcome.exit_code, 3);
    assert!(!outcome.findings.iter().any(|f| f.confidence == Confidence::Confirmed));
}

#[test]
fn findings_verdict_implies_confirmed() {
    let outcome = dream_outcome("# M\n\n## L\n\n### X\n\nSee [[missing-note]].\n", false);
    assert_eq!(outcome.exit_code, 1);
    assert!(outcome.findings.iter().any(|f| f.confidence == Confidence::Confirmed));
}

#[test]
fn dream_transition_dreaming_to_clean() {
    let outcome = dream_outcome("# M\n\n## L\n\n### Clean\n\nNothing to flag.\n", false);
    assert_eq!(outcome.exit_code, 0);
}

#[test]
fn dream_transition_dreaming_to_findings() {
    let outcome = dream_outcome("# M\n\n## L\n\n### Cites\n\nSee [[missing-note]].\n", false);
    assert_eq!(outcome.exit_code, 1);
}

#[test]
fn dream_transition_dreaming_to_advisory() {
    let outcome = dream_outcome("# M\n\n## L\n\n### Cites\n\nSee call/0017.\n", false);
    assert_eq!(outcome.exit_code, 3);
}

#[test]
fn dream_transition_dreaming_to_error() {
    let outcome = dream_outcome("# M\n\n## L\n\n### Cites\n\nSee call/0017.\n", true);
    assert_eq!(outcome.exit_code, 2);
}

#[test]
fn dream_start_inits_latch_and_status() {
    let outcome = dream_outcome("# M\n\n## L\n\n### Clean\n\nNothing.\n", false);
    assert!(outcome.findings.is_empty());
    let outcome2 = dream_outcome("# M\n\n## L\n\n### Dirty\n\nSee plan/0042.\n", false);
    assert!(!outcome2.findings.is_empty());
}

#[test]
fn dream_record_finding_sets_latch() {
    let outcome = dream_outcome("# M\n\n## L\n\n### X\n\nSee [[missing-note]].\n", false);
    assert_eq!(outcome.exit_code, 1);
    assert!(!outcome.findings.is_empty());
}

#[test]
fn dream_record_finding_guarded_on_dreaming() {
    let dirty = dream_outcome("# M\n\n## L\n\n### X\n\nSee [[missing-note]].\n", false);
    assert_eq!(dirty.exit_code, 1);
    let clean = dream_outcome("# M\n\n## L\n\n### Y\n\nClean entry.\n", false);
    assert_eq!(clean.exit_code, 0);
}

#[test]
fn dream_verdict_findings_on_any_finding() {
    let outcome = dream_outcome("# M\n\n## L\n\n### X\n\nSee [[missing-note]].\n", false);
    assert_eq!(outcome.exit_code, 1);
}

#[test]
fn dream_no_false_findings_verdict() {
    let outcome = dream_outcome("# M\n\n## L\n\n### X\n\nClean.\n", false);
    assert_ne!(outcome.exit_code, 1);
}

#[test]
fn dream_verdict_clean_on_no_finding() {
    let outcome = dream_outcome("# M\n\n## L\n\n### X\n\nClean.\n", false);
    assert_eq!(outcome.exit_code, 0);
}

#[test]
fn dream_no_false_clean_verdict() {
    let outcome = dream_outcome("# M\n\n## L\n\n### X\n\nSee [[missing-note]].\n", false);
    assert_ne!(outcome.exit_code, 0);
}

#[test]
fn dream_verdict_error_on_fail_signal() {
    let outcome = dream_outcome("# M\n\n## L\n\n### X\n\nSee call/0017.\n", true);
    assert_eq!(outcome.exit_code, 2);
}

#[test]
fn dream_no_false_error_verdict() {
    let outcome = dream_outcome("# M\n\n## L\n\n### X\n\nClean.\n", true);
    assert_ne!(outcome.exit_code, 2);
}

#[test]
fn clean_verdict_implies_no_finding() {
    let outcome = dream_outcome("# M\n\n## L\n\n### X\n\nClean.\n", false);
    if outcome.exit_code == 0 {
        assert!(outcome.findings.is_empty());
    }
}

fn early(args: &[&str]) -> Option<DreamOutcome> {
    let v: Vec<String> = args.iter().map(|a| a.to_string()).collect();
    early_outcome(&parse_dream_args(&v))
}

#[test]
fn an_unknown_flag_or_help_ends_dream_before_any_audit() {
    let bogus = early(&["--bogus"]).expect("an unknown flag ends the run");
    assert_eq!(bogus.exit_code, 2);
    assert!(bogus.findings.is_empty());
    assert!(!bogus.fix_mode);
    assert!(!bogus.json);
    let help = early(&["--json", "-h"]).expect("help ends the run");
    assert_eq!(help.exit_code, 0);
    assert!(help.findings.is_empty());
    assert!(!help.fix_mode);
    assert!(help.json);
    let fix_then_bogus = early(&["--fix", "--nope", "--json"]).expect("the flag ends the reading");
    assert_eq!(fix_then_bogus.exit_code, 2);
    assert!(fix_then_bogus.fix_mode);
    assert!(!fix_then_bogus.json);
    assert!(early(&["--json", "some/dir"]).is_none());
    assert!(matches!(parse_dream_args(&vec!["--fix".to_string()]), DreamArgs::Run { fix: true, .. }));
}

#[test]
fn a_run_without_an_audit_exits_by_whether_it_did_what_was_asked() {
    let refused = unaudited_outcome(false, true, false);
    assert_eq!(refused.exit_code, 2);
    assert!(refused.findings.is_empty());
    assert!(refused.fix_mode);
    let retired = unaudited_outcome(true, false, true);
    assert_eq!(retired.exit_code, 0);
    assert!(retired.json);
}
