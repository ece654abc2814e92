use host_lifecycle::envhash::{envhash_delta, envhash_dimensions, envhash_text, parse_envhash, EnvDimension};

fn dim(kind: &str, value: Option<&str>) -> EnvDimension {
    EnvDimension { kind: kind.to_string(), value: value.map(str::to_string) }
}

#[test]
fn envhash_text_roundtrips_readable_and_unreadable_dimensions() {
    let dims = vec![dim("worktree_paths", Some("abc123")), dim("pulled_image", None)];
    let back = parse_envhash(&envhash_text(&dims));
    assert_eq!(back, dims);
}

#[test]
fn envhash_records_only_state_facts() {
    let text = envhash_text(&vec![dim("repo_path", Some("deadbeef"))]);
    for event_fact in ["recorded =", "disposition", "evidence", "tool ="] {
        assert!(!text.contains(event_fact), "the fingerprint carries the event fact `{event_fact}`");
    }
    assert!(text.contains("[envhash \"repo_path\"]"));
}

#[test]
fn env_check_drifted_verdict() {
    let recorded = vec![dim("hook_binary", Some("aaa")), dim("repo_path", Some("bbb"))];
    let current = vec![dim("hook_binary", Some("zzz")), dim("repo_path", Some("bbb"))];
    assert_eq!(envhash_delta(&recorded, &current), vec!["hook_binary".to_string()]);
}

#[test]
fn env_check_clean_verdict() {
    let dims = vec![dim("hook_binary", Some("aaa")), dim("repo_path", Some("bbb"))];
    assert!(envhash_delta(&dims, &dims).is_empty(), "an unmoved tree reports nothing");
}

#[test]
fn unreadable_dimension_never_marked_moved() {
    let recorded = vec![dim("pulled_image", Some("sha256:old"))];
    let current = vec![dim("pulled_image", None)];
    assert!(envhash_delta(&recorded, &current).is_empty());
}

#[test]
fn every_delta_names_a_readable_moved_dimension() {
    let recorded = vec![dim("worktree_paths", Some("a")), dim("pulled_image", Some("sha256:x"))];
    let current = vec![dim("worktree_paths", Some("b")), dim("pulled_image", None)];
    let moved = envhash_delta(&recorded, &current);
    for kind in &moved {
        let d = current.iter().find(|d| &d.kind == kind).unwrap();
        assert!(d.value.is_some(), "a delta names an unreadable dimension");
    }
    assert_eq!(moved, vec!["worktree_paths".to_string()]);
}

#[test]
fn env_check_start_inits_its_latch() {
    let current = vec![dim("hook_binary", Some("aaa"))];
    assert_eq!(envhash_delta(&vec![], &current), vec!["hook_binary".to_string()]);
}

#[test]
fn one_dimension_per_state_fact_in_order() {
    let values = vec![Some("w".to_string()), Some("h".to_string()), None, Some("s".to_string()), Some("r".to_string())];
    let dims = envhash_dimensions(&values);
    let kinds: Vec<&str> = dims.iter().map(|d| d.kind.as_str()).collect();
    assert_eq!(kinds, vec!["worktree_paths", "hook_binary", "pulled_image", "submodule_init", "repo_path"]);
    assert_eq!(dims[0].value.as_deref(), Some("w"));
    assert_eq!(dims[2].value, None);
    assert_eq!(dims[4].value.as_deref(), Some("r"));
}
