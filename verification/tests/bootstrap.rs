use host_lifecycle::bootstrap::{
    after_step, artifact_owed, bootstrap_dir, hooks_line, owed_lines, pathdiff, skill_link_action, skill_link_line, skill_sources,
    skills_linked, SkillDir, SkillLinkAction, declares_submodules, parse_submodule_status, plan_steps, read_step,
    rederiver_worktree, step_line, submodule_paths, uninitialized_submodules, StepKind, TreeFacts,
};
use host_lifecycle::recipe::Software;

fn comp(name: &str) -> Software {
    Software {
        name: name.into(),
        url: "u".into(),
        pin: "p".into(),
        branch: "main".into(),
        worktrees: vec![],
        lines: vec![],
        build: None,
        toolchain: None,
        deploy: None,
        artifact: None,
        repro_exempt: None,
        hooks: None,
        deps_bundle: None,
        builds: vec![],
    }
}

fn facts(dirs: &[&str]) -> TreeFacts {
    TreeFacts {
        declared_submodules: 0,
        uninitialized: vec![],
        dirs: dirs.iter().map(|d| d.to_string()).collect(),
        files: vec![],
        skills_offered: 0,
        skills_linked: true,
        rung_declared: false,
        rederiver_runs: true,
        os: "linux".into(),
    }
}

#[test]
fn bootstrap_start_inits_its_latch() {
    let steps = plan_steps(&vec![comp("demo")], &facts(&[]));
    let materialize = steps.iter().find(|s| s.kind == StepKind::Materialize).unwrap();
    assert!(!materialize.satisfied, "an unmaterialized tree plans the materialize step");
    assert_eq!(materialize.detail, "1 component(s)");
    assert_eq!(steps.last().unwrap().kind, StepKind::VerifySetup, "the completeness check is the last step");
}

#[test]
fn bootstrap_completes_after_hooks() {
    let steps = plan_steps(&vec![comp("demo")], &facts(&["software/demo/main"]));
    let performed: Vec<StepKind> = steps.iter().filter(|s| !s.satisfied).map(|s| s.kind).collect();
    assert_eq!(performed, vec![StepKind::InstallHooks, StepKind::VerifySetup]);
}

#[test]
fn bootstrap_latches_its_hooks_step() {
    let mut f = facts(&["software/demo/main"]);
    f.skills_offered = 1;
    f.skills_linked = false;
    let step = read_step(&vec![comp("demo")], &f, StepKind::LinkSkills);
    assert!(!step.satisfied);
    assert_eq!(step_line(&step), "step     link the skills (1 skill(s) offered)");
    f.skills_linked = true;
    let step = read_step(&vec![comp("demo")], &f, StepKind::LinkSkills);
    assert_eq!(step_line(&step), "skip     link the skills (1 skill(s) offered)");
}

#[test]
fn bootstrap_owes_only_the_gate_providers_artifact() {
    let mut gate = comp("gate");
    gate.artifact = Some(("bin/gate".into(), "sha".into()));
    gate.build = Some("cargo build --release".into());
    let mut plain = comp("plain");
    plain.artifact = Some(("bin/plain".into(), "sha".into()));
    plain.build = Some("cargo build --release".into());
    let dirs: Vec<String> = vec!["software/gate/main".into(), "software/plain/main".into()];
    assert!(artifact_owed(&vec![gate.clone(), plain.clone()], "linux", &dirs, &vec![]).is_empty());
    gate.hooks = Some("pre-commit".into());
    let owed = artifact_owed(&vec![gate.clone(), plain], "linux", &dirs, &vec![]);
    assert_eq!(owed, vec![("gate".to_string(), "cargo build --release".to_string(), "software/gate/main".to_string())]);
    let files: Vec<String> = vec!["software/gate/main/bin/gate".into()];
    assert!(artifact_owed(&vec![gate.clone()], "linux", &dirs, &files).is_empty());
    let mut f = facts(&["software/gate/main"]);
    let step = read_step(&vec![gate.clone()], &f, StepKind::BuildArtifact);
    assert_eq!(step.detail, "gate");
    assert!(!step.satisfied);
    f.files = files;
    assert!(read_step(&vec![gate], &f, StepKind::BuildArtifact).satisfied);
}

#[test]
fn submodule_status_is_read_from_git() {
    let status = " 1234abcd vendor/a (heads/main)\n-5678ef00 vendor/b\n";
    let parsed = parse_submodule_status(status);
    assert_eq!(parsed, vec![(true, "vendor/a".to_string()), (false, "vendor/b".to_string())]);
    assert!(declares_submodules(&parsed));
    assert_eq!(uninitialized_submodules(&parsed), vec!["vendor/b"]);
    assert!(!declares_submodules(&parse_submodule_status("")));
}

#[test]
fn gitmodules_paths_are_read() {
    let text = "[submodule \"a\"]\n\tpath = vendor/a\n\turl = x\n[submodule \"b\"]\n    path = vendor/b  \n";
    assert_eq!(submodule_paths(text), vec!["vendor/a", "vendor/b"]);
}

#[test]
fn the_rederiver_is_found_by_name_or_deploy() {
    let mut d = comp("prover");
    d.deploy = Some("host-prove".into());
    let recipe = vec![comp("other"), d];
    assert_eq!(rederiver_worktree(&recipe, &vec!["software/prover/main".into()]), Some("software/prover/main".to_string()));
    assert_eq!(rederiver_worktree(&recipe, &vec![]), None);
    let mut f = facts(&["software/prover/main"]);
    f.rung_declared = true;
    f.rederiver_runs = false;
    assert!(!read_step(&recipe, &f, StepKind::InstallRederiver).satisfied);
    f.rederiver_runs = true;
    assert!(read_step(&recipe, &f, StepKind::InstallRederiver).satisfied);
}

#[test]
fn bootstrap_runs_on_its_first_operand() {
    let args: Vec<String> = vec!["--verbose".into(), "tree".into(), "other".into()];
    assert_eq!(bootstrap_dir(&args), Some("tree".to_string()));
    assert_eq!(bootstrap_dir(&vec!["--x".to_string()]), None);
}

fn parts(p: &str) -> Vec<String> {
    p.split('/').filter(|c| !c.is_empty()).map(|c| c.to_string()).collect()
}

#[test]
fn a_skill_link_is_written_relative_to_its_directory() {
    assert_eq!(pathdiff(&parts("/r/.agent/skills"), &parts("/r/host-lint/main/skills/tend")), "../../host-lint/main/skills/tend");
    assert_eq!(pathdiff(&parts("/r/a"), &parts("/r/a/b")), "b");
    assert_eq!(pathdiff(&parts("/r/a/b"), &parts("/r")), "../../");
    assert_eq!(pathdiff(&parts("/r/a"), &parts("/r/a")), "");
    assert_eq!(pathdiff(&parts("/x/y"), &parts("/z")), "../../z");
}

#[test]
fn skill_sources_are_sorted_and_named_by_component() {
    let dirs = vec![
        SkillDir { parts: parts("/r/host-lint/main"), root_skill: true, skills: vec!["tend".into(), "audit".into()] },
        SkillDir { parts: parts("/r/tools"), root_skill: true, skills: vec![] },
        SkillDir { parts: parts("/r/other"), root_skill: false, skills: vec!["audit".into()] },
        SkillDir { parts: parts("/r/tools"), root_skill: true, skills: vec![] },
    ];
    let got: Vec<(String, String)> =
        skill_sources(&dirs).into_iter().map(|s| (s.name, format!("/{}", s.parts.join("/")))).collect();
    assert_eq!(
        got,
        vec![
            ("audit".to_string(), "/r/host-lint/main/skills/audit".to_string()),
            ("audit".to_string(), "/r/other/skills/audit".to_string()),
            ("host-lint".to_string(), "/r/host-lint/main".to_string()),
            ("tend".to_string(), "/r/host-lint/main/skills/tend".to_string()),
            ("tools".to_string(), "/r/tools".to_string()),
        ]
    );
}

#[test]
fn skill_paths_order_by_component_not_by_text() {
    let dirs = vec![
        SkillDir { parts: parts("/r/a.b"), root_skill: false, skills: vec!["s".into()] },
        SkillDir { parts: parts("/r/a"), root_skill: false, skills: vec!["s".into()] },
    ];
    let got: Vec<Vec<String>> = skill_sources(&dirs).into_iter().map(|s| s.parts).collect();
    assert_eq!(got, vec![parts("/r/a/skills/s"), parts("/r/a.b/skills/s")]);
}

#[test]
fn every_offered_skill_must_resolve() {
    let dirs = vec![SkillDir { parts: parts("/r/c"), root_skill: false, skills: vec!["tend".into(), "audit".into()] }];
    let sources = skill_sources(&dirs);
    assert!(skills_linked(&sources, &vec!["audit".into(), "tend".into(), "x".into()]));
    assert!(!skills_linked(&sources, &vec!["audit".into()]));
    assert!(skills_linked(&vec![], &vec![]));
}

#[test]
fn a_failed_init_or_link_stops_the_run() {
    let e = after_step(StepKind::InitSubmodules, false);
    assert_eq!(e.exit, Some(1));
    assert_eq!(e.message.as_deref(), Some("host-lifecycle: submodule init failed; the rest of the sequence needs it"));
    let e = after_step(StepKind::LinkSkills, false);
    assert_eq!(e.exit, Some(1));
    assert_eq!(e.message.as_deref(), Some("host-lifecycle: could not link every skill"));
    let e = after_step(StepKind::InstallRederiver, false);
    assert_eq!(e.exit, None);
    assert_eq!(e.message.as_deref(), Some("host-lifecycle: could not install the re-deriver; the completeness check will report it"));
    let e = after_step(StepKind::InitSubmodules, true);
    assert_eq!((e.exit, e.message), (None, None));
    let e = after_step(StepKind::Materialize, false);
    assert_eq!((e.exit, e.message), (None, None));
}

#[test]
fn owed_artifacts_are_reported_not_built() {
    let owed = vec![("host-lint".to_string(), "cargo build --release".to_string(), "host-lint".to_string())];
    assert_eq!(
        owed_lines(&owed, "/r"),
        vec![
            "owed     host-lint artifact is absent; it is built in the recorded toolchain, not here",
            "         reproduce it: host-lifecycle software --verify-build /r",
            "         or build it locally in /r/host-lint: cargo build --release",
        ]
    );
    assert!(owed_lines(&vec![], "/r").is_empty());
    assert_eq!(hooks_line(3, 1), "hooks    3 target(s) gated, 1 could not be");
}

#[test]
fn an_existing_link_must_resolve_to_the_source() {
    let src = Some("/r/c/skills/tend".to_string());
    assert_eq!(skill_link_action(false, &None, &src), SkillLinkAction::Create);
    assert_eq!(skill_link_action(true, &src.clone(), &src), SkillLinkAction::Keep);
    assert_eq!(skill_link_action(true, &Some("/elsewhere/tend".into()), &src), SkillLinkAction::Conflict);
    assert_eq!(skill_link_action(true, &None, &None), SkillLinkAction::Keep);
    assert_eq!(skill_link_line(SkillLinkAction::Keep, ".agent/skills", "tend", "/r/c/skills/tend"), None);
    assert_eq!(
        skill_link_line(SkillLinkAction::Conflict, ".agent/skills", "tend", "/r/c/skills/tend").as_deref(),
        Some("conflict .agent/skills/tend exists and does not resolve to /r/c/skills/tend")
    );
    assert_eq!(skill_link_line(SkillLinkAction::Create, ".agent/skills", "tend", "x").as_deref(), Some("link     .agent/skills/tend"));
}
