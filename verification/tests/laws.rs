use host_lifecycle::dream::{parse_tier_marker, retire_content, stamp_content, TierState};
use host_lifecycle::memory::{EntryType, MemoryEntry};

fn entry(description: &str, superseded_by: &str, body: &str) -> MemoryEntry {
    MemoryEntry {
        slug: "alpha".to_string(),
        description: description.to_string(),
        body: body.to_string(),
        entry_type: EntryType::State,
        created: "2024-02-29".to_string(),
        last_edited: "2025-12-31".to_string(),
        superseded_by: superseded_by.to_string(),
    }
}

#[test]
fn written_entry_reads_back_with_quoted_values() {
    let e = entry("'quoted' start — dash", "", "Body.\n");
    let back = MemoryEntry::parse_on("alpha", &e.render(), "2000-01-01").unwrap();
    assert_eq!(back, e);
}

#[test]
fn written_entry_reads_back_with_plain_values() {
    let e = entry("plain words", "beta", "# Heading\n\nText.\n");
    let back = MemoryEntry::parse_on("alpha", &e.render(), "2000-01-01").unwrap();
    assert_eq!(back, e);
}

#[test]
fn an_empty_body_reads_back_empty() {
    let e = entry("plain", "", "");
    let back = MemoryEntry::parse_on("alpha", &e.render(), "2000-01-01").unwrap();
    assert_eq!(back, e);
}

#[test]
fn a_body_without_a_final_line_feed_reads_back_with_one() {
    let e = entry("plain", "", "text");
    let back = MemoryEntry::parse_on("alpha", &e.render(), "2000-01-01").unwrap();
    assert_eq!(back.body, "text\n");
}

#[test]
fn stamped_marker_reads_back_stamped() {
    let m = parse_tier_marker(&stamp_content("2026-07-22 t@t"));
    assert_eq!(m.state, TierState::Stamped);
    assert_eq!(m.provenance, "2026-07-22 t@t");
}

#[test]
fn retired_marker_reads_back_retired() {
    let m = parse_tier_marker(&retire_content("2026-07-22 a@a", "2026-08-01 b@b"));
    assert_eq!(m.state, TierState::Retired);
    assert_eq!(m.provenance, "2026-08-01 b@b");
}

#[test]
fn an_absent_marker_file_reads_absent() {
    let m = parse_tier_marker("");
    assert_eq!(m.state, TierState::Absent);
    assert_eq!(m.provenance, "");
}
