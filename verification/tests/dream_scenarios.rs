use host_lifecycle::dream::{
    append_only_violations, description_drift, detect, detect_cross, key_terms, reads_done_with_lore, shares_term_exec,
    slug_of_lowered, DetectorInput, Route, StoreLoc, TierState,
};
use host_lifecycle::memory::EntryType;

fn known(slugs: &[&str]) -> Vec<String> {
    let mut v: Vec<String> = slugs.iter().map(|s| s.to_string()).collect();
    v.sort();
    v
}

fn input<'a>(slug: &str, desc: &str, body: &str, slugs: &'a Vec<String>) -> DetectorInput<'a> {
    DetectorInput {
        slug: slug.to_string(),
        description: desc.to_string(),
        body: body.to_string(),
        superseded_by: String::new(),
        entry_type: EntryType::Fact,
        store: StoreLoc::PerUser,
        known_slugs: slugs,
        tier: TierState::Stamped,
        tier_provenance: "",
        store_present: true,
    }
}

fn repo_input<'a>(slug: &str, desc: &str, body: &str, slugs: &'a Vec<String>) -> DetectorInput<'a> {
    DetectorInput { store: StoreLoc::Repo, ..input(slug, desc, body, slugs) }
}

#[test]
fn dream_detects_description_body_drift() {
    let slugs = known(&["alpha"]);
    let inp = input("alpha", "not stabilized yet", "The API is stabilized as of v0.5.", &slugs);
    assert!(detect(&inp).iter().any(|f| f.kind == "description-body-drift"));
}

#[test]
fn dream_clean_on_drift_free_entry() {
    let slugs = known(&["alpha"]);
    let inp = input("alpha", "stabilized as of v0.5", "The API is stabilized as of v0.5.", &slugs);
    assert!(!detect(&inp).iter().any(|f| f.kind == "description-body-drift"));
}

#[test]
fn dream_detects_superseded_unlinked() {
    let slugs = known(&["alpha", "beta"]);
    let mut inp = input("alpha", "older", "Alpha body. See nothing.", &slugs);
    inp.superseded_by = "beta".to_string();
    assert!(detect(&inp).iter().any(|f| f.kind == "superseded-but-unlinked"));
}

#[test]
fn dream_clean_on_linked_supersession() {
    let slugs = known(&["alpha", "beta"]);
    let mut inp = input("alpha", "older", "Older. See [[beta]] for the update.", &slugs);
    inp.superseded_by = "beta".to_string();
    assert!(!detect(&inp).iter().any(|f| f.kind == "superseded-but-unlinked"));
}

#[test]
fn dream_detects_dangling_link() {
    let slugs = known(&["alpha"]);
    let inp = input("alpha", "x", "See [[beta]] which is missing.", &slugs);
    assert!(detect(&inp).iter().any(|f| f.kind == "dangling-link"));
}

#[test]
fn dream_clean_on_resolved_links() {
    let slugs = known(&["alpha", "beta"]);
    let inp = input("alpha", "x", "See [[beta]] which exists.", &slugs);
    assert!(!detect(&inp).iter().any(|f| f.kind == "dangling-link"));
}

#[test]
fn description_body_drift_is_per_user_only_not_repo() {
    let slugs = known(&["alpha"]);
    let inp = repo_input(
        "alpha",
        "check artifact mismatch is a note not drift",
        "The mismatch is a note, not drift; drift is a separate concern.",
        &slugs,
    );
    assert!(!detect(&inp).iter().any(|f| f.kind == "description-body-drift"));
    let per_user = input("alpha", "not stabilized yet", "The API is stabilized.", &slugs);
    assert!(detect(&per_user).iter().any(|f| f.kind == "description-body-drift"));
}

#[test]
fn dream_detects_room_touching() {
    let slugs = known(&["alpha"]);
    let inp = input("alpha", "x", "Cites call/0017 as live rule.", &slugs);
    assert!(detect(&inp).iter().any(|f| f.kind == "room-touching"));
}

#[test]
fn dream_clean_on_no_room_refs() {
    let slugs = known(&["alpha"]);
    let inp = input("alpha", "x", "No methodology records cited here.", &slugs);
    assert!(!detect(&inp).iter().any(|f| f.kind == "room-touching"));
}

#[test]
fn repo_store_finding_routes_to_append() {
    let slugs = known(&["alpha"]);
    let mut inp = input("alpha", "x", "Cites call/0017.", &slugs);
    inp.store = StoreLoc::Repo;
    let fs = detect(&inp);
    for f in &fs {
        assert_ne!(f.route, Route::Edit, "repo finding routed to edit: {:?}", f);
        assert_eq!(f.route, Route::Append);
    }
}

#[test]
fn dream_detects_stale_state_over_lore() {
    let slugs = known(&["snapshot"]);
    let mut inp = input(
        "snapshot",
        "GPU parity status",
        "Single-GPU parity is done; the dual-GPU measurement was 42ms.",
        &slugs,
    );
    inp.entry_type = EntryType::State;
    assert!(detect(&inp).iter().any(|f| f.kind == "stale-state-over-lore"));
}

#[test]
fn dream_clean_on_current_state() {
    let slugs = known(&["snapshot"]);
    let mut inp = input("snapshot", "Status", "This work is done and shipped.", &slugs);
    inp.entry_type = EntryType::State;
    assert!(!detect(&inp).iter().any(|f| f.kind == "stale-state-over-lore"));
}

#[test]
fn dream_detects_workaround_vs_plan() {
    let slugs = known(&["workaround", "plan"]);
    let mut w = input("workaround", "k=0 kernel fix", "The k=0_kernel needs the AR16 model applied at boot.", &slugs);
    w.entry_type = EntryType::Workaround;
    let mut p = input("plan", "Base locked", "The base is locked to F16-ssm_out as agreed.", &slugs);
    p.entry_type = EntryType::Fact;
    p.body = "The base is locked to k=0_kernel as agreed.".to_string();
    let entries = vec![w, p];
    let fs = detect_cross(&entries);
    assert!(fs.iter().any(|f| f.kind == "workaround-vs-plan" && f.entry_slug == "workaround"));
}

#[test]
fn dream_clean_on_workaround_linked_to_plan() {
    let slugs = known(&["workaround", "plan"]);
    let mut w = input(
        "workaround",
        "k=0 kernel fix",
        "The k=0_kernel needs AR16; see [[plan]] for the standing decision.",
        &slugs,
    );
    w.entry_type = EntryType::Workaround;
    let mut p = input("plan", "Base locked", "The base is locked to k=0_kernel as agreed.", &slugs);
    p.entry_type = EntryType::Fact;
    let entries = vec![w, p];
    assert!(!detect_cross(&entries).iter().any(|f| f.kind == "workaround-vs-plan"));
}

/// The `git log -p --no-color -- MEMORY.md` of a two-commit history: the
/// first commit adds `first`, the second turns it into `second` through
/// the hunk `hunk`.
fn history(first: &str, hunk: &str) -> String {
    let mut created = String::new();
    for l in first.lines() {
        created.push('+');
        created.push_str(l);
        created.push('\n');
    }
    format!(
        "commit 2222222222222222222222222222222222222222\nAuthor: test <test@example.com>\nDate:   Mon Jan 5 10:00:00 2026 +0000\n\n    second\n\n\
         diff --git a/MEMORY.md b/MEMORY.md\nindex 1111111..2222222 100644\n--- a/MEMORY.md\n+++ b/MEMORY.md\n{hunk}\
         \ncommit 1111111111111111111111111111111111111111\nAuthor: test <test@example.com>\nDate:   Mon Jan 5 09:00:00 2026 +0000\n\n    first\n\n\
         diff --git a/MEMORY.md b/MEMORY.md\nnew file mode 100644\nindex 0000000..1111111\n--- /dev/null\n+++ b/MEMORY.md\n@@ -0,0 +1,{} @@\n{created}",
        first.lines().count()
    )
}

#[test]
fn dream_detects_append_only_violation_in_git_history() {
    let log = history(
        "# MEMORY.md\n\n### Original\n\nFirst body line.\n",
        "@@ -2,4 +2,4 @@\n \n ### Original\n \n-First body line.\n+Edited body line.\n",
    );
    let found = append_only_violations(&log);
    assert!(
        found.iter().any(|f| f.kind == "append-only-violation"),
        "expected an append-only-violation finding, got: {found:?}"
    );
}

#[test]
fn dream_clean_on_clean_repo_store() {
    let log = history(
        "# MEMORY.md\n\n### First\n\nBody.\n",
        "@@ -3,3 +3,7 @@\n ### First\n \n Body.\n+\n+### Second\n+\n+Appended body.\n",
    );
    let found = append_only_violations(&log);
    assert!(
        !found.iter().any(|f| f.kind == "append-only-violation"),
        "expected no append-only-violation findings on a clean-append history, got: {found:?}"
    );
}

#[test]
fn dream_append_only_violation_finding_created() {
    let log = history("# M\n\n### X\n\nOriginal.\n", "@@ -2,4 +2,4 @@\n \n ### X\n \n-Original.\n+Edited.\n");
    let found = append_only_violations(&log);
    let f = found.iter().find(|f| f.kind == "append-only-violation").expect("append-only-violation finding not emitted");
    assert_eq!(f.store, StoreLoc::Repo);
    assert_eq!(f.route, Route::Append);
    assert_eq!(f.entry_slug, "x");
}

#[test]
fn drift_is_read_from_the_lowered_texts() {
    assert_eq!(
        description_drift("not stabilized yet", "the api is stabilized as of v0.5."),
        Some(("not ".to_string(), "stabilized".to_string()))
    );
    assert_eq!(description_drift("no regressions", "two regressions found"), Some(("no ".to_string(), "regressions".to_string())));
    assert_eq!(description_drift("not ok", "it is ok"), None, "a token of under three bytes is no drift");
    assert_eq!(description_drift("stabilized", "stabilized"), None);
}

#[test]
fn a_lowered_body_reads_done_with_lore() {
    assert!(reads_done_with_lore("parity is done; the measurement was 42ms."));
    assert!(!reads_done_with_lore("this work is done and shipped."));
    assert!(!reads_done_with_lore("undone, measured at 42ms"), "done must stand as a word");
    assert!(!reads_done_with_lore("measured at 42 ms, done"), "a digit before whitespace is no unit");
}

#[test]
fn a_lowered_heading_slugs_by_collapsing_runs() {
    assert_eq!(slug_of_lowered("2025-01-xx \u{2014} initial setup"), "2025-01-xx-initial-setup");
    assert_eq!(slug_of_lowered("--a  b--"), "a-b");
}

#[test]
fn key_terms_are_lowered_long_runs_and_shared_by_equality() {
    let x = key_terms("The K=0_kernel needs AR16 at boot");
    let y = key_terms("locked to kernel settings");
    assert!(x.iter().any(|t| t.iter().collect::<String>() == "kernel"));
    assert!(shares_term_exec(&x, &y));
    assert!(!shares_term_exec(&x, &key_terms("short words only")));
}
