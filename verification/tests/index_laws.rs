use host_lifecycle::envhash::{gitignore_update, ENVHASH};
use host_lifecycle::memory::{remove_line, upsert_line, EntryType, IndexLine, MemoryEntry};

fn line(slug: &str, title: &str) -> IndexLine {
    IndexLine { slug: slug.into(), title: title.into(), description: "d".into() }
}

fn entry(slug: &str) -> MemoryEntry {
    MemoryEntry {
        slug: slug.into(),
        description: "new".into(),
        body: "# Title\n".into(),
        entry_type: EntryType::Fact,
        created: "2026-01-01".into(),
        last_edited: "2026-01-01".into(),
        superseded_by: String::new(),
    }
}

#[test]
fn a_new_slug_sorts_in_and_equal_slugs_keep_their_order() {
    let index = vec![line("b", "first"), line("a", "only"), line("b", "second")];
    let out = upsert_line(index, &entry("c"));
    let got: Vec<(String, String)> = out.iter().map(|l| (l.slug.clone(), l.title.clone())).collect();
    assert_eq!(got[0], ("a".to_string(), "only".to_string()));
    assert_eq!(got[1], ("b".to_string(), "first".to_string()));
    assert_eq!(got[2], ("b".to_string(), "second".to_string()));
    assert_eq!(got[3].0, "c");
}

#[test]
fn writes_and_deletes_keep_the_index_in_slug_order() {
    let mut index = vec![];
    for s in ["m", "a", "z", "a"] {
        index = upsert_line(index, &entry(s));
    }
    let slugs: Vec<String> = index.iter().map(|l| l.slug.clone()).collect();
    assert_eq!(slugs, vec!["a", "m", "z"]);
    let (rest, changed) = remove_line(&index, "m");
    assert!(changed);
    let slugs: Vec<String> = rest.iter().map(|l| l.slug.clone()).collect();
    assert_eq!(slugs, vec!["a", "z"]);
    let (same, changed) = remove_line(&rest, "m");
    assert!(!changed);
    assert_eq!(same.len(), 2);
}

#[test]
fn the_ignore_line_is_added_once() {
    let first = gitignore_update("target/", ENVHASH).expect("added");
    assert!(first.starts_with("target/\n\n"));
    assert!(first.ends_with(".host-envhash\n"));
    assert_eq!(gitignore_update(&first, ENVHASH), None);
}
