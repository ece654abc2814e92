use host_lifecycle::refs::{
    first_bare_reference, first_qualified_reference, first_register_reference, parse_refs_args, parse_resolve_args,
    refs_check, sweep, DocRead, Emission, RefTree, Room, RoomEntry,
};

fn entry(name: &str) -> RoomEntry {
    RoomEntry { name: name.into(), is_dir: false, exists: true, has_readme: false }
}

fn tree(with_plan: bool) -> RefTree {
    let mut rooms = vec![];
    if with_plan {
        rooms.push(Room { name: "plan".into(), entries: vec![entry("0074-gate.md"), entry("0012-first.md"), entry("notes.md")] });
    }
    RefTree { rooms, origin_url: None, origin_head: None, head: None, recipe_text: None, gitmodules_text: None }
}

fn doc(name: &str, text: Option<&str>) -> DocRead {
    DocRead { name: name.into(), text: text.map(String::from) }
}

#[test]
fn refs_check_fails_closed_on_an_empty_corpus() {
    let v = refs_check(&vec![], 0, "/t", &tree(true));
    assert_eq!(v.code, 2);
    assert!(v.stdout.is_empty());
    assert_eq!(v.stderr, vec!["host-lifecycle: no authored markdown to sweep under /t (not a git repository, or nothing tracked?)"]);
    let v = refs_check(&vec![], 3, "/t", &tree(true));
    assert_eq!(v.stderr, vec!["host-lifecycle: no authored markdown to sweep under /t (3 document(s) excluded by .host-lintignore or the record layer)"]);
}

#[test]
fn refs_check_splits_clean_advisory_and_dead() {
    let clean = refs_check(&vec![doc("a.md", Some("Nothing to see.\n"))], 0, "/t", &tree(true));
    assert_eq!(clean.code, 0);
    assert_eq!(clean.stdout, vec!["-- 1 doc(s) swept; every reference in them resolves and renders"]);

    let debt = refs_check(&vec![doc("a.md", Some("See #17 and o/r#3.\n"))], 0, "/t", &tree(true));
    assert_eq!(debt.code, 3);
    assert_eq!(debt.stdout[0], "bare     a.md: 2 issue number(s) written outside a link");
    assert!(debt.stdout.iter().any(|l| l == "   For one of them: host-lifecycle resolve o/r#3 --markdown /t"));
    assert!(debt.stdout.iter().any(|l| l == "   1 of them name no repository, so a reader cannot tell whose tracker they mean."));

    let dead = refs_check(&vec![doc("a.md", Some("See plan/0099.\n"))], 0, "/t", &tree(true));
    assert_eq!(dead.code, 1);
    assert_eq!(dead.stdout[0], "DEAD     a.md:1 plan/0099 names no entry in that room");
}

#[test]
fn an_unreadable_document_gates_rather_than_being_counted_as_swept() {
    let v = refs_check(&vec![doc("a.md", Some("ok\n")), doc("b.md", None)], 0, "/t", &tree(true));
    assert_eq!(v.code, 1);
    assert_eq!(v.stdout[0], "UNREAD   b.md: listed by the walk and could not be read");
    assert_eq!(v.stdout[1], "-- 1 doc(s) read of 2 listed.");
    let s = sweep(&vec![doc("a.md", Some("ok\n")), doc("b.md", None)], &tree(true));
    assert_eq!(s.unread, vec!["b.md"]);
}

#[test]
fn the_verdict_discloses_what_it_did_not_check_on_every_exit() {
    let v = refs_check(&vec![doc("a.md", Some("See call/0003.\n"))], 2, "/t", &tree(false));
    assert_eq!(v.code, 0);
    assert!(v.stdout.iter().any(|l| l.starts_with("   2 document(s) were excluded and not swept")));
    assert!(v.stdout.iter().any(|l| l.starts_with("   no plan/ or call/ room here")));
    assert!(v.stdout.iter().any(|l| l.starts_with("   1 register reference(s) name a room this repository does not hold (rooms here: none)")));
}

#[test]
fn the_first_references_a_usage_error_can_name() {
    assert_eq!(first_register_reference(&tree(true)), Some("plan/0012".to_string()));
    assert_eq!(first_register_reference(&tree(false)), None);
    let docs = vec![doc("a.md", None), doc("b.md", Some("fixes #4 and o/r#9\n"))];
    assert_eq!(first_bare_reference(&docs, &tree(true)), Some(("b.md".to_string(), "#4".to_string())));
    assert_eq!(first_qualified_reference(&docs), Some("o/r#9".to_string()));
}

#[test]
fn an_unknown_flag_is_a_usage_error_rather_than_a_verdict() {
    let a: Vec<String> = vec!["plan/0074".into(), "--url".into(), "dir".into()];
    let r = parse_resolve_args(&a).ok().unwrap();
    assert_eq!(r.emission, Emission::FullUrl);
    assert_eq!(r.reference, "plan/0074");
    assert_eq!(r.dir, "dir");
    let bad: Vec<String> = vec!["plan/0074".into(), "--md".into()];
    assert_eq!(parse_resolve_args(&bad).err().unwrap(), "host-lifecycle: unknown flag `--md` (expected --markdown, --url or --path)");
    assert!(parse_resolve_args(&vec![]).is_err());
    let r = parse_refs_args(&vec!["--check".to_string(), "d".to_string()]).ok().unwrap();
    assert!(r.check && !r.fix);
    assert_eq!(r.dir, Some("d".to_string()));
    assert_eq!(parse_refs_args(&vec!["--nope".to_string()]).err().unwrap(), "host-lifecycle: unknown flag `--nope` (expected --check)");
}
