use host_lifecycle::dream::{
    audit, dream_verdict, parse_tier_marker, retire_content, retire_message, retire_refusal, settle_outcome,
    should_stamp, stamp_content, stamp_message, Confidence, Route, StoreLoc, TierMarker, TierState, TIER_MARKER_FILE,
};

/// The marker file as a text: `None` is no file.
fn read(file: &Option<String>) -> TierMarker {
    match file {
        Some(c) => parse_tier_marker(c),
        None => TierMarker { state: TierState::Absent, provenance: String::new() },
    }
}

/// What a run does to the marker file: stamp when a store is observed and
/// the marker allows it.
fn stamp_if_observed(file: &mut Option<String>, store: bool) -> Option<String> {
    if should_stamp(&read(file), store) {
        *file = Some(stamp_content("2026-07-22 t@t"));
        Some(stamp_message("2026-07-22 t@t"))
    } else {
        None
    }
}

fn retire_marker(file: &mut Option<String>) -> Result<String, String> {
    let m = read(file);
    if let Some(why) = retire_refusal(&m) {
        return Err(why);
    }
    *file = Some(retire_content(&m.provenance, "2026-08-01 r@r"));
    Ok(retire_message("2026-08-01 r@r"))
}

const REPO: &str = "# M\n\n### E\n\nClean.\n";

#[test]
fn marker_stamps_on_observed_store() {
    let mut file = None;
    assert!(stamp_if_observed(&mut file, false).is_none());
    assert_eq!(read(&file).state, TierState::Absent);
    let msg = stamp_if_observed(&mut file, true).expect("stamp on observed store");
    assert!(msg.contains(TIER_MARKER_FILE), "message names the file: {msg}");
    let marker = read(&file);
    assert_eq!(marker.state, TierState::Stamped);
    assert!(!marker.provenance.is_empty());
    assert!(stamp_if_observed(&mut file, true).is_none());
}

#[test]
fn marker_retires_from_stamped() {
    let mut file = None;
    assert!(retire_marker(&mut file).is_err());
    stamp_if_observed(&mut file, true).expect("stamp");
    let line = retire_marker(&mut file).expect("retire from stamped");
    assert!(line.contains("MEMORY.md"), "names the owed appended correction: {line}");
    let marker = read(&file);
    assert_eq!(marker.state, TierState::Retired);
    assert!(!marker.provenance.is_empty());
    assert!(retire_marker(&mut file).is_err());
    assert!(stamp_if_observed(&mut file, true).is_none());
    assert_eq!(read(&file).state, TierState::Retired);
}

#[test]
fn marker_contradiction_after_retirement() {
    let mut file = None;
    stamp_if_observed(&mut file, true).expect("stamp");
    retire_marker(&mut file).expect("retire");
    let a = audit(read(&file), true, &vec![], REPO, vec![], true);
    let f = a.findings.iter().find(|f| f.kind == "marker-contradiction").expect("contradiction finding");
    assert_eq!(f.confidence, Confidence::Confirmed);
    assert!(f.suggestion.contains("Never edit the marker"), "anti-hand-edit tail: {}", f.suggestion);
    let a = audit(read(&file), false, &vec![], REPO, vec![], true);
    assert!(!a.findings.iter().any(|f| f.kind == "marker-contradiction"));
}

#[test]
fn marker_stamp_only_from_absent() {
    let mut file = None;
    stamp_if_observed(&mut file, true).expect("first stamp");
    assert!(stamp_if_observed(&mut file, true).is_none());
    retire_marker(&mut file).expect("retire");
    assert!(stamp_if_observed(&mut file, true).is_none());
    assert_eq!(read(&file).state, TierState::Retired);
}

#[test]
fn marker_no_contradiction_before_retirement() {
    let mut file = None;
    stamp_if_observed(&mut file, true).expect("stamp");
    let a = audit(read(&file), true, &vec![], REPO, vec![], true);
    assert!(!a.findings.iter().any(|f| f.kind == "marker-contradiction"));
}

#[test]
fn marker_contradiction_finding_created() {
    let mut file = None;
    stamp_if_observed(&mut file, true).expect("stamp");
    retire_marker(&mut file).expect("retire");
    let a = audit(read(&file), true, &vec![], REPO, vec![], true);
    let f = a.findings.iter().find(|f| f.kind == "marker-contradiction").expect("finding");
    assert_eq!(f.entry_slug, "tier-marker");
    assert_eq!(f.store, StoreLoc::Repo);
    assert_eq!(f.route, Route::Append);
    assert_eq!(f.confidence, Confidence::Confirmed);
    assert!(f.explanation.contains("2026-08-01 r@r"));
}

#[test]
fn a_retired_marker_contradiction_sets_the_findings_verdict() {
    let mut file = None;
    stamp_if_observed(&mut file, true).expect("stamp");
    retire_marker(&mut file).expect("retire");
    let a = audit(read(&file), true, &vec![], REPO, vec![], true);
    assert_eq!(dream_verdict(&a.findings), 1);
    let fix = settle_outcome(a.findings, true, false);
    assert_eq!(fix.exit_code, 2, "--fix refuses the repo store");
    let clean = audit(TierMarker { state: TierState::Absent, provenance: String::new() }, false, &vec![], REPO, vec![], true);
    assert!(clean.findings.is_empty());
    assert_eq!(dream_verdict(&clean.findings), 0);
}

#[test]
fn marker_transition_absent_to_stamped() {
    let mut file = None;
    assert_eq!(read(&file).state, TierState::Absent);
    stamp_if_observed(&mut file, true).expect("stamp");
    assert_eq!(read(&file).state, TierState::Stamped);
}

#[test]
fn marker_transition_stamped_to_retired() {
    let mut file = None;
    stamp_if_observed(&mut file, true).expect("stamp");
    retire_marker(&mut file).expect("retire");
    assert_eq!(read(&file).state, TierState::Retired);
}

#[test]
fn marker_retire_only_from_stamped() {
    let mut file = None;
    assert!(retire_marker(&mut file).is_err());
    stamp_if_observed(&mut file, true).expect("stamp");
    retire_marker(&mut file).expect("retire from stamped");
    assert!(retire_marker(&mut file).is_err());
}
