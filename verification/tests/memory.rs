use host_lifecycle::memory::{encode_cwd, parse_index, render_index, EntryType, IndexLine, MemoryEntry};

#[test]
fn encode_cwd_mangles_slashes_to_hyphens() {
    assert_eq!(
        encode_cwd("/mnt/c/Users/dconnolly/Development/agentic-host"),
        "-mnt-c-Users-dconnolly-Development-agentic-host"
    );
}

#[test]
fn entry_type_round_trips() {
    for t in [EntryType::Feedback, EntryType::Fact, EntryType::Workaround, EntryType::State] {
        assert_eq!(EntryType::parse(t.as_str()).unwrap(), t);
    }
    assert!(EntryType::parse("nonsense").is_err());
}

#[test]
fn entry_render_and_parse_round_trip() {
    let entry = MemoryEntry {
        slug: "test".to_string(),
        description: "a description: with a colon".to_string(),
        body: "## Title\n\nBody text.\n".to_string(),
        entry_type: EntryType::Feedback,
        created: "2026-07-19".to_string(),
        last_edited: "2026-07-19".to_string(),
        superseded_by: "other-slug".to_string(),
    };
    let rendered = entry.render();
    let parsed = MemoryEntry::parse("test", &rendered).unwrap();
    assert_eq!(parsed, entry);
}

#[test]
fn index_parse_handles_the_rendered_form() {
    let lines = vec![
        IndexLine { slug: "alpha".to_string(), title: "Alpha".to_string(), description: "first entry".to_string() },
        IndexLine {
            slug: "beta".to_string(),
            title: "Beta".to_string(),
            description: "second: with colon".to_string(),
        },
    ];
    let rendered = render_index(&lines);
    let parsed = parse_index(&rendered);
    assert_eq!(parsed, lines);
}

#[test]
fn project_encoding_is_path_independent() {
    let a = encode_cwd("/mnt/c/Users/me/proj");
    let b = encode_cwd("/mnt/c/Users/me/proj");
    assert_eq!(a, b);
}
