use host_lifecycle::memory::MemoryStore;
use host_lifecycle::text::join_path;

#[test]
fn a_store_lives_under_its_root_by_the_encoded_project_path() {
    let s = MemoryStore::open("/home/u/.host-memory", "/src/proj").unwrap();
    assert_eq!(s.dir(), "/home/u/.host-memory/-src-proj");
    assert_eq!(s.entry_path("tend"), "/home/u/.host-memory/-src-proj/tend.md");
    assert_eq!(s.index_path(), "/home/u/.host-memory/-src-proj/MEMORY.md");
    let t = MemoryStore::open("/home/u/.host-memory/", "/src/proj").unwrap();
    assert_eq!(t.dir(), "/home/u/.host-memory/-src-proj");
}

#[test]
fn paths_join_as_the_platform_joins_them() {
    assert_eq!(join_path("a", "b"), "a/b");
    assert_eq!(join_path("a/", "b"), "a/b");
    assert_eq!(join_path("", "b"), "b");
    assert_eq!(join_path("a", "/b"), "/b");
    assert_eq!(join_path("a", ""), "a/");
}

#[test]
fn store_resolves_links_within_same_store_only() {
    let store = MemoryStore::open("/tmp/hl-root", "/proj/x").unwrap();
    let other = MemoryStore::open("/tmp/hl-root", "/proj/y").unwrap();
    let mut existing = vec![store.entry_path("alpha")];
    assert!(store.resolves(&existing, "alpha"));
    assert!(!store.resolves(&existing, "beta"));
    existing.push(other.entry_path("beta"));
    assert!(!store.resolves(&existing, "beta"), "another store's entry does not resolve here");
    existing.push(store.entry_path("beta"));
    assert!(store.resolves(&existing, "beta"));
}

#[test]
fn store_list_over_absent_dir_returns_empty_not_error() {
    let store = MemoryStore::open("/tmp/hl-root", "/never-written").unwrap();
    assert!(store.list(None, &vec![], "2026-01-01").is_empty());
    assert!(!store.resolves(&vec![], "anything"));
}
