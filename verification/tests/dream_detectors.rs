use host_lifecycle::dream::{
    detect, detect_cross, extract_room_refs, extract_wiki_links, parse_repo_memory_sections, slugify,
    suggestion_for, Confidence, DetectorInput, Route, StoreLoc, TierState,
};
use host_lifecycle::memory::EntryType;

fn known(slugs: &[&str]) -> Vec<String> {
    let mut v: Vec<String> = slugs.iter().map(|s| s.to_string()).collect();
    v.sort();
    v
}

fn input<'a>(slug: &str, desc: &str, body: &str, slugs: &'a Vec<String>) -> DetectorInput<'a> {
    DetectorInput {
        slug: slug.to_string(),
        description: desc.to_string(),
        body: body.to_string(),
        superseded_by: String::new(),
        entry_type: EntryType::Fact,
        store: StoreLoc::PerUser,
        known_slugs: slugs,
        tier: TierState::Stamped,
        tier_provenance: "",
        store_present: true,
    }
}

fn repo_input<'a>(slug: &str, desc: &str, body: &str, slugs: &'a Vec<String>) -> DetectorInput<'a> {
    DetectorInput { store: StoreLoc::Repo, ..input(slug, desc, body, slugs) }
}

#[test]
fn drift_finding_created_per_user_only() {
    let slugs = known(&["alpha"]);
    let per_user = input("alpha", "not stabilized yet", "The API is stabilized.", &slugs);
    let f = detect(&per_user)
        .into_iter()
        .find(|f| f.kind == "description-body-drift")
        .expect("per-user drift finding");
    assert_eq!(f.confidence, Confidence::Confirmed);
    assert_eq!(f.route, Route::Edit);
    let repo = repo_input("alpha", "not stabilized yet", "The API is stabilized.", &slugs);
    assert!(!detect(&repo).iter().any(|f| f.kind == "description-body-drift"));
}

#[test]
fn dangling_confirmed_without_marker() {
    let slugs = known(&["alpha"]);
    let mut inp = repo_input("alpha", "x", "See [[missing-concept]].", &slugs);
    inp.tier = TierState::Absent;
    inp.store_present = false;
    let f = detect(&inp).into_iter().find(|f| f.kind == "dangling-link").expect("dangling finding");
    assert_eq!(f.confidence, Confidence::Confirmed);
    let mut retired = repo_input("alpha", "x", "See [[missing-concept]].", &slugs);
    retired.tier = TierState::Retired;
    retired.store_present = false;
    let f2 = detect(&retired)
        .into_iter()
        .find(|f| f.kind == "dangling-link")
        .expect("dangling finding under retirement");
    assert_eq!(f2.confidence, Confidence::Confirmed);
}

#[test]
fn dangling_not_confirmed_when_marker_present() {
    let slugs = known(&["alpha"]);
    let mut inp = repo_input("alpha", "x", "See [[missing-concept]].", &slugs);
    inp.tier = TierState::Stamped;
    inp.store_present = false;
    let f = detect(&inp).into_iter().find(|f| f.kind == "dangling-link").expect("dangling finding");
    assert_eq!(f.confidence, Confidence::ReviewPrompt);
}

#[test]
fn dangling_confirmed_finding_created() {
    let slugs = known(&["alpha"]);
    let mut inp = repo_input("alpha", "x", "See [[missing-concept]].", &slugs);
    inp.tier = TierState::Absent;
    inp.store_present = false;
    let f = detect(&inp).into_iter().find(|f| f.kind == "dangling-link").expect("finding");
    assert_eq!(f.route, Route::Append);
    assert!(
        f.suggestion.starts_with("If a per-user store is intended, the operator initializes"),
        "initialization fork must lead: {}",
        f.suggestion
    );
    assert!(f.suggestion.contains("appended correction"), "append-only action: {}", f.suggestion);
    assert!(f.suggestion.contains("Never edit the existing entry in place"), "anti-edit tail: {}", f.suggestion);
}

#[test]
fn dangling_advisory_when_store_absent_here() {
    let slugs = known(&["alpha"]);
    let mut inp = repo_input("alpha", "x", "See [[missing-concept]].", &slugs);
    inp.tier = TierState::Stamped;
    inp.tier_provenance = "2026-07-22 t@t";
    inp.store_present = false;
    let f = detect(&inp).into_iter().find(|f| f.kind == "dangling-link").expect("finding");
    assert_eq!(f.confidence, Confidence::ReviewPrompt);
    assert!(f.suggestion.starts_with("Leave the"), "safe no-op leads: {}", f.suggestion);
    assert!(
        f.suggestion.contains("Do not drop the link on this machine's evidence alone"),
        "machine-local drop forbidden: {}",
        f.suggestion
    );
}

#[test]
fn dangling_uninitialized_requires_marker() {
    let slugs = known(&["alpha"]);
    let mut inp = repo_input("alpha", "x", "See [[missing-concept]].", &slugs);
    inp.tier = TierState::Absent;
    inp.store_present = false;
    let f = detect(&inp).into_iter().find(|f| f.kind == "dangling-link").expect("finding");
    assert!(!f.suggestion.starts_with("Leave the"), "not the uninitialized shape: {}", f.suggestion);
    assert_eq!(f.confidence, Confidence::Confirmed);
}

#[test]
fn dangling_uninitialized_finding_created() {
    let slugs = known(&["alpha"]);
    let mut inp = repo_input("alpha", "x", "See [[missing-concept]].", &slugs);
    inp.tier = TierState::Stamped;
    inp.tier_provenance = "2026-07-22 t@t";
    inp.store_present = false;
    let f = detect(&inp).into_iter().find(|f| f.kind == "dangling-link").expect("finding");
    assert_eq!(f.route, Route::Append);
    assert!(f.explanation.contains("per-user store absent here"), "state named: {}", f.explanation);
    assert!(f.explanation.contains("stamped 2026-07-22 t@t"), "provenance travels: {}", f.explanation);
}

#[test]
fn dangling_advisory_when_entry_missing() {
    let slugs = known(&["alpha"]);
    let per_user = input("alpha", "x", "See [[beta]] which is missing.", &slugs);
    let f = detect(&per_user).into_iter().find(|f| f.kind == "dangling-link").expect("finding");
    assert_eq!(f.confidence, Confidence::ReviewPrompt);
    assert!(f.suggestion.starts_with("Edit"), "per-user entry-missing edits in place: {}", f.suggestion);
}

#[test]
fn dangling_confirmed_only_when_tier_unused() {
    let slugs = known(&["alpha"]);
    let matrix = [
        (TierState::Absent, false, Confidence::Confirmed),
        (TierState::Retired, false, Confidence::Confirmed),
        (TierState::Retired, true, Confidence::Confirmed),
        (TierState::Stamped, false, Confidence::ReviewPrompt),
        (TierState::Stamped, true, Confidence::ReviewPrompt),
        (TierState::Absent, true, Confidence::ReviewPrompt),
    ];
    for (tier, present, expect) in matrix {
        let mut inp = repo_input("alpha", "x", "See [[missing-concept]].", &slugs);
        inp.tier = tier;
        inp.store_present = present;
        let f = detect(&inp).into_iter().find(|f| f.kind == "dangling-link").expect("finding");
        assert_eq!(f.confidence, expect, "state ({tier:?}, store_present={present})");
        match expect {
            Confidence::Confirmed => assert_eq!(f.state, "tier-unused"),
            Confidence::ReviewPrompt => assert!(
                f.state == "uninitialized-here" || f.state == "entry-missing",
                "advisory state token: {}",
                f.state
            ),
        }
    }
}

#[test]
fn dangling_retired_per_user_routes_edit_not_append() {
    let slugs = known(&["alpha"]);
    let mut inp = input("alpha", "x", "See [[beta]] which is missing.", &slugs);
    inp.tier = TierState::Retired;
    inp.tier_provenance = "2026-07-22 t@t";
    inp.store_present = true;
    let f = detect(&inp).into_iter().find(|f| f.kind == "dangling-link").expect("finding");
    assert_eq!(f.confidence, Confidence::Confirmed);
    assert_eq!(f.state, "tier-unused");
    assert_eq!(f.route, Route::Edit);
    assert!(f.suggestion.starts_with("Edit"), "store-correct edit frame: {}", f.suggestion);
    assert!(f.suggestion.contains("Do not append"), "anti-append tail: {}", f.suggestion);
    assert!(f.suggestion.contains("removes the retired marker"), "re-opt-in protocol: {}", f.suggestion);
    assert!(!f.suggestion.contains("commits the tier marker"), "no stale fork: {}", f.suggestion);
    assert!(f.suggestion.contains("never the auditing agent's act"), "anti-stamp tail: {}", f.suggestion);
}

#[test]
fn superseded_unlinked_finding_created() {
    let slugs = known(&["alpha", "beta"]);
    let mut inp = input("alpha", "older", "Alpha body. See nothing.", &slugs);
    inp.superseded_by = "beta".to_string();
    let f = detect(&inp).into_iter().find(|f| f.kind == "superseded-but-unlinked").expect("finding");
    assert_eq!(f.route, Route::Edit);
    assert_eq!(f.confidence, Confidence::Confirmed);
    assert!(f.suggestion.starts_with("Edit"), "edit frame: {}", f.suggestion);
}

#[test]
fn stale_state_finding_created() {
    let slugs = known(&["snapshot"]);
    let mut inp = input(
        "snapshot",
        "GPU parity status",
        "Single-GPU parity is done; the dual-GPU measurement was 42ms.",
        &slugs,
    );
    inp.entry_type = EntryType::State;
    let f = detect(&inp).into_iter().find(|f| f.kind == "stale-state-over-lore").expect("finding");
    assert_eq!(f.route, Route::Edit);
    assert_eq!(f.confidence, Confidence::Confirmed);
}

#[test]
fn workaround_finding_created() {
    let slugs = known(&["workaround", "plan"]);
    let mut w = input("workaround", "k=0 kernel fix", "The k=0_kernel needs the AR16 model applied at boot.", &slugs);
    w.entry_type = EntryType::Workaround;
    let mut p = input("plan", "kernel plan", "The k=0_kernel lands properly in the boot path rework.", &slugs);
    p.entry_type = EntryType::Fact;
    let all = vec![w, p];
    let f = detect_cross(&all).into_iter().find(|f| f.kind == "workaround-vs-plan").expect("finding");
    assert_eq!(f.route, Route::Edit);
    assert_eq!(f.confidence, Confidence::Confirmed);
}

#[test]
fn extract_wiki_links_finds_slugs() {
    let body = "See [[alpha]] and [[beta-2]] but not [[c]].";
    let links = extract_wiki_links(body);
    assert_eq!(links, vec!["alpha", "beta-2", "c"]);
}

#[test]
fn extract_room_refs_finds_call_and_plan() {
    let body = "as recorded in call/0017 and revisited in plan/0042; call/0017 again";
    let refs = extract_room_refs(body);
    assert_eq!(refs, vec!["call/0017", "plan/0042", "call/0017"]);
}

#[test]
fn extract_room_refs_survives_multibyte_chars() {
    let body = "see plan/0074 — the receipt, per call/0018 — reopened";
    let refs = extract_room_refs(body);
    assert_eq!(refs, vec!["plan/0074", "call/0018"]);
    assert_eq!(extract_room_refs("— just prose —"), Vec::<String>::new());
}

#[test]
fn slugify_collapses_non_alphanumeric_to_single_hyphens() {
    assert_eq!(slugify("2025-01-XX — Initial Setup"), "2025-01-xx-initial-setup");
    assert_eq!(slugify("Foo!!Bar"), "foo-bar");
}

#[test]
fn parse_repo_memory_sections_splits_on_h3_heading() {
    let content = "# MEMORY.md\n\n## Session Log\n\n### First\n\n- a\n\n### Second\n\n- b\n";
    let sections = parse_repo_memory_sections(content);
    assert_eq!(sections.len(), 2);
    assert_eq!(sections[0].heading, "First");
    assert_eq!(sections[1].heading, "Second");
    assert!(sections[0].body.contains("- a"));
}

#[test]
fn dangling_resolves_against_union_not_one_store() {
    let slugs = known(&["alpha", "specs-colocate-with-software"]);
    let inp = repo_input("alpha", "x", "See [[specs-colocate-with-software]].", &slugs);
    assert!(!detect(&inp).iter().any(|f| f.kind == "dangling-link"));
    let missing = known(&["alpha"]);
    let repo = repo_input("alpha", "x", "See [[specs-colocate-with-software]].", &missing);
    assert!(detect(&repo).iter().any(|f| f.kind == "dangling-link"));
    let per_user = input("alpha", "x", "See [[beta]] which is missing.", &missing);
    assert!(detect(&per_user).iter().any(|f| f.kind == "dangling-link"));
}

#[test]
fn per_user_finding_suggestion_carries_the_edit_imperative() {
    let slugs = known(&["alpha"]);
    let mut inp = input("alpha", "x", "See [[beta]] which is missing.", &slugs);
    inp.store = StoreLoc::PerUser;
    let f = detect(&inp).into_iter().find(|f| f.kind == "dangling-link").expect("dangling-link finding");
    assert!(f.suggestion.starts_with("Edit"), "not an edit imperative: {}", f.suggestion);
    assert!(f.suggestion.contains("in place"), "missing in-place cue: {}", f.suggestion);
    assert!(f.suggestion.contains("Do not append"), "missing anti-append tail: {}", f.suggestion);
}

#[test]
fn repo_finding_suggestion_carries_the_append_imperative() {
    let s = suggestion_for(Route::Append, "alpha", "resolve the thing");
    assert!(s.starts_with("Append"), "not an append imperative: {s}");
    assert!(s.contains("Do not edit"), "missing anti-edit tail: {s}");
}

#[test]
fn room_touching_suggestion_routes_to_madr_not_a_memory_write() {
    let slugs = known(&["alpha"]);
    let inp = input("alpha", "x", "Cites call/0017 as live rule.", &slugs);
    let f = detect(&inp).into_iter().find(|f| f.kind == "room-touching").expect("room-touching finding");
    assert!(f.suggestion.contains("call/0017"), "record not named: {}", f.suggestion);
    assert!(f.suggestion.contains("Status: superseded"), "no MADR action: {}", f.suggestion);
    assert!(f.suggestion.contains("Do not edit the memory entry"), "missing anti-memory-write tail: {}", f.suggestion);
}
