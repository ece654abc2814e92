use host_lifecycle::dream::{audit, extract_wiki_links, StoreLoc, TierMarker, TierState};
use host_lifecycle::memory::{EntryType, MemoryEntry};

#[test]
fn a_slug_is_any_run_of_lowercase_letters_digits_and_dashes() {
    assert_eq!(extract_wiki_links("See [[-x]] and [[y]]."), vec!["-x", "y"]);
    assert_eq!(extract_wiki_links("See [[X]] and [[a b]] and [[]]."), Vec::<String>::new());
}

#[test]
fn the_audit_reports_the_per_user_tier_first() {
    let e = MemoryEntry {
        slug: "alpha".into(),
        description: "x".into(),
        body: "See [[missing]] and call/0017.\n".into(),
        entry_type: EntryType::Fact,
        created: "2026-01-01".into(),
        last_edited: "2026-01-01".into(),
        superseded_by: String::new(),
    };
    let marker = TierMarker { state: TierState::Retired, provenance: "2026-01-02 r@r".into() };
    let repo = "# M\n\n### Log\n\nCites plan/0001 and [[nowhere]].\n";
    let a = audit(marker, true, &vec![e], repo, vec![], true);
    let stores: Vec<StoreLoc> = a.findings.iter().map(|f| f.store).collect();
    let first_repo = stores.iter().position(|s| *s == StoreLoc::Repo).expect("a repo finding");
    assert!(first_repo > 0, "a per-user finding exists: {:?}", a.findings);
    assert!(stores[..first_repo].iter().all(|s| *s == StoreLoc::PerUser));
    assert!(stores[first_repo..].iter().all(|s| *s == StoreLoc::Repo));
    assert_eq!(a.findings[first_repo].kind, "marker-contradiction");
}
