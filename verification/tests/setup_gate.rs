use host_lifecycle::recipe::{PlatformBuild, Software, WorktreeLine};
use host_lifecycle::setup::{
    built_here, declared_worktrees, setup_requirements, verify_setup, Requirement, RequirementKind, SetupProbe,
};

fn comp(name: &str) -> Software {
    Software {
        name: name.into(),
        url: "u".into(),
        pin: "p".into(),
        branch: "main".into(),
        worktrees: vec![],
        lines: vec![],
        build: None,
        toolchain: None,
        deploy: None,
        artifact: None,
        repro_exempt: None,
        hooks: None,
        deps_bundle: None,
        builds: vec![],
    }
}

fn empty_probe() -> SetupProbe {
    SetupProbe {
        submodules: vec![],
        live_worktrees: vec![],
        files: vec![],
        gated_dirs: vec![],
        host_hooks: None,
        worktree_hooks: vec![],
        stale_binaries: vec![],
        skills: vec![],
        unreadable_sources: vec![],
        rederiver: None,
    }
}

#[test]
fn declared_worktrees_follow_the_recipe_and_the_platform() {
    let mut s = comp("gate");
    s.worktrees = vec!["next".into()];
    s.lines = vec![
        WorktreeLine { branch: "mac".into(), host: Some("macos".into()) },
        WorktreeLine { branch: "any".into(), host: None },
        WorktreeLine { branch: "lin".into(), host: Some("linux".into()) },
    ];
    assert_eq!(
        declared_worktrees(&s, "linux"),
        vec!["software/gate/main", "software/gate/next", "software/gate/any", "software/gate/lin"]
    );
}

#[test]
fn non_build_host_never_gaps_on_the_artifact() {
    assert!(built_here(None, "linux"));
    assert!(built_here(Some("linux"), "linux"));
    assert!(!built_here(Some("plan9"), "linux"));
}

#[test]
fn setup_requires_a_hook_on_every_commit_surface() {
    let mut gate = comp("gate");
    gate.hooks = Some("hooks-script".into());
    gate.artifact = Some(("bin/gate".into(), "sha".into()));
    let recipe = vec![gate.clone()];
    let mut probe = empty_probe();
    probe.live_worktrees = vec!["software/gate/main".into()];
    probe.host_hooks = Some("/repo/.git/hooks".into());
    probe.worktree_hooks = vec![("software/gate/main".into(), "/repo/.git/worktrees/main/hooks".into())];
    let reqs = setup_requirements(&recipe, "linux", &probe);
    let host: Vec<&Requirement> = reqs.iter().filter(|r| r.kind == RequirementKind::HostHookInstalled).collect();
    let wt: Vec<&Requirement> = reqs.iter().filter(|r| r.kind == RequirementKind::WorktreeHookInstalled).collect();
    assert_eq!(host.len(), 1);
    assert_eq!(wt.len(), 1);
    assert!(host[0].is_gap() && wt[0].is_gap());
    assert_eq!(wt[0].target, "software/gate/main");
    let art = reqs.iter().find(|r| r.kind == RequirementKind::BuildArtifactPresent).unwrap();
    assert!(art.required && art.is_gap());
    let v = verify_setup(&reqs, "/repo", None);
    assert_eq!(v.code, 1);

    let mut elsewhere = gate.clone();
    elsewhere.builds = vec![PlatformBuild {
        platform: "aarch64".into(),
        build: Some("cargo build".into()),
        toolchain: None,
        deploy: None,
        artifact: Some(("bin/gate".into(), "sha".into())),
        repro_exempt: None,
        attest_host: Some("plan9".into()),
    }];
    let reqs = setup_requirements(&vec![elsewhere], "linux", &probe);
    let art = reqs.iter().find(|r| r.kind == RequirementKind::BuildArtifactPresent).unwrap();
    assert!(!art.required && !art.is_gap());
    assert_eq!(art.note, "built on plan9, not here");
    assert_eq!(art.target, "gate [aarch64]");

    let mut no_artifact = gate.clone();
    no_artifact.artifact = None;
    let reqs = setup_requirements(&vec![no_artifact], "linux", &probe);
    assert!(reqs.iter().any(|r| r.kind == RequirementKind::GateArtifactRecorded && r.is_gap()));
}

#[test]
fn a_shared_hooks_directory_is_asked_about_once() {
    let mut gate = comp("gate");
    gate.hooks = Some("hooks-script".into());
    gate.artifact = Some(("bin/gate".into(), "sha".into()));
    gate.worktrees = vec!["next".into()];
    let mut probe = empty_probe();
    probe.host_hooks = Some("/repo/.git/hooks".into());
    probe.worktree_hooks = vec![
        ("software/gate/main".into(), "/repo/.git/hooks".into()),
        ("software/gate/next".into(), "/repo/.git/hooks".into()),
    ];
    probe.gated_dirs = vec!["/repo/.git/hooks".into()];
    probe.files = vec!["/repo/.git/hooks/gate".into(), "software/gate/main/bin/gate".into()];
    let reqs = setup_requirements(&vec![gate], "linux", &probe);
    let hooks: Vec<&Requirement> = reqs
        .iter()
        .filter(|r| r.kind == RequirementKind::HostHookInstalled || r.kind == RequirementKind::WorktreeHookInstalled)
        .collect();
    assert_eq!(hooks.len(), 1);
    assert!(!hooks[0].is_gap());
    let current = reqs.iter().find(|r| r.kind == RequirementKind::HookBinaryCurrent).unwrap();
    assert!(!current.is_gap());
}

#[test]
fn one_gap_blocks_a_complete_verdict() {
    let recipe = vec![comp("absent")];
    let reqs = setup_requirements(&recipe, "linux", &empty_probe());
    assert_eq!(reqs.iter().filter(|r| r.is_gap()).count(), 1);
    let v = verify_setup(&reqs, "/tmp/x", None);
    assert_eq!(v.code, 1);
    assert_eq!(v.lines[0], "HAZARD   software/absent/main — worktree materialized is missing; run: host-lifecycle software --materialize /tmp/x");
    assert_eq!(v.lines[1], "-- setup INCOMPLETE: 1 required local artifact(s) missing; install them and re-run");
    let none = setup_requirements(&vec![], "linux", &empty_probe());
    let v = verify_setup(&none, "/tmp/x", None);
    assert_eq!(v.code, 0);
    assert_eq!(v.lines, vec!["-- setup complete: every artifact the recipe requires of this host is present"]);
}

#[test]
fn gap_names_its_requirement() {
    let mut probe = empty_probe();
    probe.skills = vec![("tend".into(), false)];
    probe.unreadable_sources = vec!["software/comp/main/skills".into()];
    probe.submodules = vec![("vendor/x".into(), true)];
    probe.rederiver = Some(false);
    let reqs = setup_requirements(&vec![], "linux", &probe);
    let kinds: Vec<RequirementKind> = reqs.iter().map(|r| r.kind).collect();
    assert_eq!(
        kinds,
        vec![
            RequirementKind::SubmodulesInitialized,
            RequirementKind::SkillSourceReadable,
            RequirementKind::SkillLinked,
            RequirementKind::RederiverOnPath,
        ]
    );
    let skill = reqs.iter().find(|r| r.kind == RequirementKind::SkillLinked).unwrap();
    assert_eq!(skill.target, "tend");
    assert!(skill.is_gap());
    let v = verify_setup(&reqs, "/t", Some("software/host-prove/main"));
    assert_eq!(v.code, 1);
    assert_eq!(v.lines[0], "ok       vendor/x — submodules initialized");
    assert_eq!(
        v.lines[3],
        "HAZARD   the shared re-deriver — re-deriver runnable is missing; run: cargo install --path software/host-prove/main"
    );
    assert_eq!(v.lines[4], "-- setup INCOMPLETE: 3 required local artifact(s) missing; install them and re-run");
}

#[test]
fn every_remedy_names_this_tree() {
    let root = "/srv/t";
    assert_eq!(RequirementKind::SubmodulesInitialized.remedy(root, None), "git -C /srv/t submodule update --init");
    assert_eq!(RequirementKind::SkillLinked.remedy(root, None), "host-lifecycle bootstrap /srv/t");
    assert_eq!(
        RequirementKind::RederiverOnPath.remedy(root, None),
        "cargo install --git https://github.com/connollydavid/host-prove"
    );
    assert_eq!(RequirementKind::HookBinaryCurrent.label(), "installed gate matches the built one");
}

#[test]
fn the_gate_binary_is_named_as_a_path_names_its_file() {
    let mut gate = comp("gate");
    gate.hooks = Some("hooks-script".into());
    gate.artifact = Some(("target/release/gate/.".into(), "sha".into()));
    let recipe = vec![gate];
    let mut probe = empty_probe();
    probe.host_hooks = Some("/repo/.git/hooks".into());
    probe.gated_dirs = vec!["/repo/.git/hooks".into()];
    probe.files = vec!["/repo/.git/hooks/gate".into()];
    probe.stale_binaries = vec![(
        "/repo/.git/hooks/gate".into(),
        "software/gate/main/target/release/gate/.".into(),
    )];
    let reqs = setup_requirements(&recipe, "linux", &probe);
    let host = reqs.iter().find(|r| r.kind == RequirementKind::HostHookInstalled).unwrap();
    assert!(!host.is_gap(), "the binary beside the hooks is `gate`, not `.`");
    let current = reqs.iter().find(|r| r.kind == RequirementKind::HookBinaryCurrent).unwrap();
    assert!(current.is_gap());
}

#[test]
fn complete_setup_implies_every_worktree_hooked() {
    let mut gate = comp("host-lint");
    gate.hooks = Some("hooks-script".into());
    gate.artifact = Some(("target/release/host-lint".into(), "sha".into()));
    let recipe = vec![gate];
    let hooks = "/base/hooks".to_string();
    let gated = |probe: &SetupProbe| {
        let reqs = setup_requirements(&recipe, "linux", probe);
        let host = reqs.iter().find(|r| r.kind == RequirementKind::HostHookInstalled).unwrap().clone();
        let current = reqs.iter().find(|r| r.kind == RequirementKind::HookBinaryCurrent).unwrap().clone();
        (!host.is_gap(), !current.is_gap())
    };
    let mut probe = empty_probe();
    probe.host_hooks = Some(hooks.clone());
    assert!(!gated(&probe).0, "an empty hooks dir is not gated");
    probe.files = vec![format!("{hooks}/host-lint")];
    assert!(!gated(&probe).0, "present but not executable is not a gate");
    probe.gated_dirs = vec![hooks.clone()];
    assert!(gated(&probe).0, "executable hooks plus their binary are a gate");
    probe.files = vec![];
    assert!(!gated(&probe).0, "the dispatch script without its binary is not a gate");
    probe.files = vec![format!("{hooks}/host-lint")];
    probe.stale_binaries =
        vec![(format!("{hooks}/host-lint"), "software/host-lint/main/target/release/host-lint".to_string())];
    assert!(!gated(&probe).1, "a stale installed gate is reported");
    probe.stale_binaries = vec![];
    assert!(gated(&probe).1);
}
