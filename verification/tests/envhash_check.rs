use host_lifecycle::envhash::worktree_paths_text;
use host_lifecycle::recipe::{worktree_candidates, Software, WorktreeLine};
use host_lifecycle::envhash::{
    env_check_report, envhash_delta, envhash_text, gitignore_update, parse_envhash, EnvDimension, ENVHASH,
};

fn dim(kind: &str, value: Option<&str>) -> EnvDimension {
    EnvDimension { kind: kind.to_string(), value: value.map(str::to_string) }
}

/// The dimensions a tree reads as: two readable, one this machine cannot read.
fn tree() -> Vec<EnvDimension> {
    vec![dim("worktree_paths", Some("e3b0c442")), dim("pulled_image", None), dim("repo_path", Some("9f86d081"))]
}

/// Recording the fingerprint: the file's text, and the ignore file after the
/// writer owed its line.
fn write_envhash(dims: &Vec<EnvDimension>, ignore: &mut String) -> String {
    if let Some(t) = gitignore_update(ignore, ENVHASH) {
        *ignore = t;
    }
    envhash_text(dims)
}

#[test]
fn env_check_records_then_reads_clean() {
    let current = tree();
    let r = env_check_report(None, &current, "/r");
    assert_eq!(r.code, 2, "no record on disk is the one non-zero exit");
    assert!(r.out.is_empty());
    assert_eq!(
        r.err.as_deref(),
        Some("host-lifecycle: no .host-envhash recorded yet \u{2014} run `host-lifecycle software --materialize /r` to record one")
    );
    let mut ignore = String::new();
    let recorded = write_envhash(&current, &mut ignore);
    let r = env_check_report(Some(&recorded), &current, "/r");
    assert_eq!(r.code, 0, "a recorded, unmoved tree is clean and never gates");
    assert_eq!(
        r.out,
        vec![
            "unread   pulled_image (not readable on this machine; never reported as moved)".to_string(),
            "-- the tree matches the recorded fingerprint".to_string(),
        ]
    );
}

#[test]
fn env_check_exits_zero_with_a_delta() {
    let current = tree();
    let mut ignore = String::new();
    let recorded = write_envhash(&current, &mut ignore);
    assert_eq!(env_check_report(Some(&recorded), &current, "/r").code, 0);
    let moved_text = recorded.replace("value = ", "value = 0000");
    let moved = envhash_delta(&parse_envhash(&moved_text), &current);
    assert_eq!(moved, vec!["worktree_paths".to_string(), "repo_path".to_string()]);
    let r = env_check_report(Some(&moved_text), &current, "/r");
    assert_eq!(r.code, 0, "a delta routes, it never gates");
    assert!(r.out[0].starts_with("moved    worktree_paths \u{2014} a component worktree appeared or disappeared"));
    assert!(r.out.last().unwrap().starts_with("-- 2 dimension(s) moved since the fingerprint was recorded."));
}

#[test]
fn env_check_no_false_clean_verdict() {
    let current = tree();
    assert_eq!(env_check_report(None, &current, "/r").code, 2, "no record is the only non-zero outcome");
    let mut ignore = String::new();
    let recorded = write_envhash(&current, &mut ignore);
    assert!(envhash_delta(&parse_envhash(&recorded), &current).is_empty(), "no false delta");
    assert_ne!(env_check_report(Some(&recorded), &current, "/r").code, 2, "a record never reports cannot-proceed");
}

#[test]
fn install_hooks_write_is_envhash_only() {
    let mut ignore = "target/\n".to_string();
    write_envhash(&tree(), &mut ignore);
    assert!(ignore.lines().any(|l| l.trim() == ENVHASH), "the fingerprint is ignored");
    assert!(ignore.starts_with("target/\n"), "what was ignored stays ignored");
    let first = ignore.clone();
    write_envhash(&tree(), &mut ignore);
    assert_eq!(ignore, first, "the line is added once");
    assert_eq!(gitignore_update(&first, ENVHASH), None);
}

#[test]
fn cannot_proceed_only_without_an_envhash() {
    let mut ignore = String::new();
    let first = write_envhash(&tree(), &mut ignore);
    let second = write_envhash(&tree(), &mut ignore);
    assert_eq!(first, second);
    assert_eq!(env_check_report(Some(&second), &tree(), "/r").code, 0);
}

#[test]
fn the_worktree_dimension_hashes_the_present_paths_sorted_once() {
    let s = Software {
        name: "gate".into(),
        url: "u".into(),
        pin: "p".into(),
        branch: "main".into(),
        worktrees: vec!["review".into()],
        lines: vec![WorktreeLine { branch: "perf".into(), host: None }],
        build: None,
        toolchain: None,
        deploy: None,
        artifact: None,
        repro_exempt: None,
        hooks: None,
        deps_bundle: None,
        builds: vec![],
    };
    let c = worktree_candidates(&vec![s]);
    assert_eq!(c, vec!["software/gate/main", "software/gate/review", "software/gate/perf"]);
    let present: Vec<String> = vec![c[2].clone(), c[0].clone(), c[2].clone()];
    assert_eq!(worktree_paths_text(&present), "software/gate/main\nsoftware/gate/perf");
    assert_eq!(worktree_paths_text(&vec![]), "");
}
